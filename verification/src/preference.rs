//! Learning what a person values from the comparisons of a tournament: which
//! way the risk criterion points, how much each criterion weighs, and the
//! portable profile that carries the result to another run.
//!
//! Weights and growth factors are fixed-point numbers counted in billionths.

use rand::SeedableRng;
use rand::seq::SliceRandom;
use vstd::prelude::*;
use vstd::string::StringExecFns;
use crate::config::ScoringWeights;
use crate::config::WEIGHT_ONE;
use crate::data::SCORE_MAX;
use crate::data::Scores;
use crate::ranking::rank_descending;
use crate::ranking::ranking;
use crate::text::join;
use crate::text::same_text;
use crate::tournament::Comparison;
use crate::tournament::count_rated;
use crate::tournament::extract_scores;
use crate::tournament::IdeaRecord;
use crate::tournament::Preferences;
use crate::tournament::rated_total;

verus! {

/// Which way the risk criterion points in the scores of a run.
#[derive(Debug, Clone, Copy, PartialEq, Eq, Structural)]
pub enum RiskMode {
    /// A higher risk score is better: the score is used as it is.
    AsBenefit,
    /// A lower risk score is better: ten points minus the score is used.
    Invert,
}

/// The risk score as a benefit under the given mode.
pub open spec fn risk_feature(risk: i32, mode: RiskMode) -> int {
    match mode {
        RiskMode::AsBenefit => risk as int,
        RiskMode::Invert => SCORE_MAX - risk,
    }
}

/// The eight features of an idea: its scores in the fixed criterion order,
/// the risk score as a benefit under the given mode.
pub open spec fn features(scores: Scores, mode: RiskMode) -> Seq<int> {
    seq![
        scores.feasibility as int,
        scores.speed_to_value as int,
        scores.differentiation as int,
        scores.market_size as int,
        scores.distribution as int,
        scores.moats as int,
        risk_feature(scores.risk, mode),
        scores.clarity as int,
    ]
}

/// The sum of the eight features: eight times their plain mean.
pub open spec fn feature_total(scores: Scores, mode: RiskMode) -> int {
    scores.feasibility + scores.speed_to_value + scores.differentiation + scores.market_size
        + scores.distribution + scores.moats + risk_feature(scores.risk, mode) + scores.clarity
}

/// The numbers of an array, as integers.
pub open spec fn ints(values: Seq<i64>) -> Seq<int> {
    Seq::new(values.len(), |k: int| values[k] as int)
}

/// The eight features of an idea under the given mode.
pub fn scores_to_features(scores: &Scores, risk_mode: RiskMode) -> (f: [i64; 8])
    ensures
        ints(f@) == features(*scores, risk_mode),
        forall|k: int| 0 <= k < 8 ==> -0x1_0000_0000 <= #[trigger] f@[k] <= 0x1_0000_0000,
{
    let risk: i64 = match risk_mode {
        RiskMode::AsBenefit => scores.risk as i64,
        RiskMode::Invert => SCORE_MAX as i64 - scores.risk as i64,
    };
    let f: [i64; 8] = [
        scores.feasibility as i64,
        scores.speed_to_value as i64,
        scores.differentiation as i64,
        scores.market_size as i64,
        scores.distribution as i64,
        scores.moats as i64,
        risk,
        scores.clarity as i64,
    ];
    proof {
        assert(ints(f@) =~= features(*scores, risk_mode));
    }
    f
}

/// How far the plain mean of the features of a record is from its overall
/// score under the given mode, in eighths of a thousandth; zero for a record
/// that is not fully scored.
pub open spec fn mean_error(record: IdeaRecord, mode: RiskMode) -> int {
    if record.is_scored() {
        let gap = feature_total(record.complete_scores()->0, mode) - 8 * record.overall_score->0;
        if gap < 0 {
            -gap
        } else {
            gap
        }
    } else {
        0
    }
}

/// The mean errors of the first `n` records under the given mode, summed.
pub open spec fn total_error(records: Seq<IdeaRecord>, mode: RiskMode, n: nat) -> int
    decreases n,
{
    if n == 0 {
        0
    } else {
        total_error(records, mode, (n - 1) as nat) + mean_error(records[n - 1], mode)
    }
}

/// How many of the first `n` records are fully scored.
pub open spec fn scored_records(records: Seq<IdeaRecord>, n: nat) -> nat
    decreases n,
{
    if n == 0 {
        0
    } else if records[n - 1].is_scored() {
        scored_records(records, (n - 1) as nat) + 1
    } else {
        scored_records(records, (n - 1) as nat)
    }
}

/// The risk mode that the records speak for: inverted where at least three
/// records are fully scored and their overall scores are strictly closer, in
/// sum, to the plain means with the risk inverted than to those with the risk
/// as it is; as a benefit otherwise.
pub open spec fn inferred_risk_mode(records: Seq<IdeaRecord>) -> RiskMode {
    if scored_records(records, records.len()) >= 3 && total_error(
        records,
        RiskMode::Invert,
        records.len(),
    ) < total_error(records, RiskMode::AsBenefit, records.len()) {
        RiskMode::Invert
    } else {
        RiskMode::AsBenefit
    }
}

/// The distance of `total` from eight times `overall`.
fn error_of(total: i64, overall: i64) -> (gap: i128)
    ensures
        gap == if total - 8 * overall < 0 {
            -(total - 8 * overall)
        } else {
            total - 8 * overall
        },
{
    let gap: i128 = total as i128 - 8 * (overall as i128);
    if gap < 0 {
        -gap
    } else {
        gap
    }
}

/// The sum of eight features.
fn total_of(f: &[i64; 8]) -> (total: i64)
    requires
        forall|k: int| 0 <= k < 8 ==> -0x1_0000_0000 <= #[trigger] f@[k] <= 0x1_0000_0000,
    ensures
        total == f@[0] + f@[1] + f@[2] + f@[3] + f@[4] + f@[5] + f@[6] + f@[7],
{
    f[0] + f[1] + f[2] + f[3] + f[4] + f[5] + f[6] + f[7]
}

/// Infers which way the risk criterion points from the fully scored records
/// of a run: for each, the overall score is held against the plain mean of
/// the features under either mode.
pub fn infer_risk_mode(records: &Vec<IdeaRecord>) -> (mode: RiskMode)
    ensures
        mode == inferred_risk_mode(records@),
{
    let mut lead: i128 = 0;
    let mut count: usize = 0;
    let mut k: usize = 0;
    while k < records.len()
        invariant
            k <= records.len(),
            count == scored_records(records@, k as nat),
            count <= k,
            lead == total_error(records@, RiskMode::AsBenefit, k as nat) - total_error(
                records@,
                RiskMode::Invert,
                k as nat,
            ),
            -0x2_0000_4000 * k <= lead <= 0x2_0000_4000 * k,
        decreases records.len() - k,
    {
        let record = &records[k];
        if let Some(scores) = extract_scores(record) {
            if let Some(overall) = record.overall_score {
                let as_benefit = scores_to_features(&scores, RiskMode::AsBenefit);
                let inverted = scores_to_features(&scores, RiskMode::Invert);
                proof {
                    assert(ints(as_benefit@)[6] == features(scores, RiskMode::AsBenefit)[6]);
                    assert(ints(inverted@)[6] == features(scores, RiskMode::Invert)[6]);
                    assert forall|m: int| 0 <= m < 8 implies ints(as_benefit@)[m] == features(
                        scores,
                        RiskMode::AsBenefit,
                    )[m] && ints(inverted@)[m] == features(scores, RiskMode::Invert)[m] by {}
                    assert(ints(as_benefit@)[0] == as_benefit@[0]);
                }
                let error_benefit = error_of(total_of(&as_benefit), overall);
                let error_invert = error_of(total_of(&inverted), overall);
                proof {
                    assert(error_benefit == mean_error(*record, RiskMode::AsBenefit));
                    assert(error_invert == mean_error(*record, RiskMode::Invert));
                }
                lead = lead + (error_benefit - error_invert);
                count += 1;
            }
        }
        k += 1;
    }
    if count >= 3 && lead > 0 {
        RiskMode::Invert
    } else {
        RiskMode::AsBenefit
    }
}

/// The scores known for the identifier `id` among the first `n` records:
/// those of the last record of that identifier that has all eight scores.
pub open spec fn scores_by_id(records: Seq<IdeaRecord>, id: Seq<char>, n: nat) -> Option<Scores>
    decreases n,
{
    if n == 0 {
        None
    } else if records[n - 1].id is Some && records[n - 1].id->0@ == id && records[n
        - 1].complete_scores() is Some {
        records[n - 1].complete_scores()
    } else {
        scores_by_id(records, id, (n - 1) as nat)
    }
}

/// The scores known for the identifier `id`: those of the last record of
/// that identifier that has all eight scores.
pub fn lookup_scores(records: &Vec<IdeaRecord>, id: &str) -> (scores: Option<Scores>)
    ensures
        scores == scores_by_id(records@, id@, records@.len()),
{
    let mut found: Option<Scores> = None;
    let mut k: usize = 0;
    while k < records.len()
        invariant
            k <= records.len(),
            found == scores_by_id(records@, id@, k as nat),
        decreases records.len() - k,
    {
        let record = &records[k];
        let named = match &record.id {
            Some(text) => same_text(text.as_str(), id),
            None => false,
        };
        if named {
            if let Some(scores) = extract_scores(record) {
                found = Some(scores);
            }
        }
        k += 1;
    }
    found
}

/// The differences, feature by feature, between two ideas.
pub open spec fn feature_delta(winner: Scores, loser: Scores, mode: RiskMode) -> Seq<int> {
    Seq::new(8, |k: int| features(winner, mode)[k] - features(loser, mode)[k])
}

/// What a comparison teaches: the feature differences between the idea
/// preferred and the other one. Nothing where a part of the comparison is
/// missing, where the winner is neither of the two ideas, or where the scores
/// of one of the two are not known.
pub open spec fn lesson_of(comparison: Comparison, records: Seq<IdeaRecord>, mode: RiskMode) -> Option<
    Seq<int>,
> {
    if comparison.idea_a is Some && comparison.idea_b is Some && comparison.winner is Some {
        let a = comparison.idea_a->0@;
        let b = comparison.idea_b->0@;
        let winner = comparison.winner->0@;
        if winner == a || winner == b {
            let loser = if winner == a {
                b
            } else {
                a
            };
            let winner_scores = scores_by_id(records, winner, records.len());
            let loser_scores = scores_by_id(records, loser, records.len());
            if winner_scores is Some && loser_scores is Some {
                Some(feature_delta(winner_scores->0, loser_scores->0, mode))
            } else {
                None
            }
        } else {
            None
        }
    } else {
        None
    }
}

/// What the first `n` comparisons teach, in their order.
pub open spec fn lessons_among(
    comparisons: Seq<Comparison>,
    records: Seq<IdeaRecord>,
    mode: RiskMode,
    n: nat,
) -> Seq<Seq<int>>
    decreases n,
{
    if n == 0 {
        Seq::empty()
    } else {
        let before = lessons_among(comparisons, records, mode, (n - 1) as nat);
        match lesson_of(comparisons[n - 1], records, mode) {
            Some(delta) => before.push(delta),
            None => before,
        }
    }
}

/// What the comparisons teach under the risk mode that the records speak
/// for.
pub open spec fn lessons(preferences: Preferences, records: Seq<IdeaRecord>) -> Seq<Seq<int>> {
    lessons_among(
        preferences.comparisons@,
        records,
        inferred_risk_mode(records),
        preferences.comparisons@.len(),
    )
}

/// The feature differences of a list, as integers.
pub open spec fn delta_ints(deltas: Seq<[i64; 8]>) -> Seq<Seq<int>> {
    Seq::new(deltas.len(), |k: int| ints(deltas[k]@))
}

/// Every feature difference is one that two ideas can have.
pub open spec fn deltas_in_range(deltas: Seq<[i64; 8]>) -> bool {
    forall|p: int, k: int|
        0 <= p < deltas.len() && 0 <= k < 8 ==> -0x2_0000_0000 <= #[trigger] deltas[p]@[k]
            <= 0x2_0000_0000
}

/// What one comparison teaches.
fn lesson(comparison: &Comparison, records: &Vec<IdeaRecord>, mode: RiskMode) -> (delta: Option<
    [i64; 8],
>)
    ensures
        delta is Some <==> lesson_of(*comparison, records@, mode) is Some,
        delta is Some ==> ints(delta->0@) == lesson_of(*comparison, records@, mode)->0,
        delta is Some ==> forall|k: int|
            0 <= k < 8 ==> -0x2_0000_0000 <= #[trigger] delta->0@[k] <= 0x2_0000_0000,
{
    let (a, b, winner) = match (&comparison.idea_a, &comparison.idea_b, &comparison.winner) {
        (Some(a), Some(b), Some(winner)) => (a.as_str(), b.as_str(), winner.as_str()),
        _ => {
            return None;
        },
    };
    let loser = if same_text(winner, a) {
        b
    } else if same_text(winner, b) {
        a
    } else {
        return None;
    };
    let winner_scores = match lookup_scores(records, winner) {
        Some(scores) => scores,
        None => {
            return None;
        },
    };
    let loser_scores = match lookup_scores(records, loser) {
        Some(scores) => scores,
        None => {
            return None;
        },
    };
    let f_winner = scores_to_features(&winner_scores, mode);
    let f_loser = scores_to_features(&loser_scores, mode);
    let mut delta: [i64; 8] = [0, 0, 0, 0, 0, 0, 0, 0];
    let mut k: usize = 0;
    while k < 8
        invariant
            k <= 8,
            forall|m: int| 0 <= m < 8 ==> -0x1_0000_0000 <= #[trigger] f_winner@[m] <= 0x1_0000_0000,
            forall|m: int| 0 <= m < 8 ==> -0x1_0000_0000 <= #[trigger] f_loser@[m] <= 0x1_0000_0000,
            forall|m: int| 0 <= m < k ==> #[trigger] delta@[m] == f_winner@[m] - f_loser@[m],
        decreases 8 - k,
    {
        delta[k] = f_winner[k] - f_loser[k];
        k += 1;
    }
    proof {
        assert forall|m: int| 0 <= m < 8 implies ints(delta@)[m] == feature_delta(
            winner_scores,
            loser_scores,
            mode,
        )[m] by {
            assert(ints(f_winner@)[m] == f_winner@[m]);
            assert(ints(f_loser@)[m] == f_loser@[m]);
        }
        assert(ints(delta@) =~= feature_delta(winner_scores, loser_scores, mode));
    }
    Some(delta)
}

/// What the comparisons on record teach about the person's values: for
/// each comparison of two ideas with known scores, the feature differences
/// between the idea preferred and the other one, under the risk mode that the
/// records speak for.
pub fn preference_deltas(preferences: &Preferences, records: &Vec<IdeaRecord>) -> (deltas: Vec<
    [i64; 8],
>)
    ensures
        delta_ints(deltas@) == lessons(*preferences, records@),
        deltas_in_range(deltas@),
        deltas@.len() <= preferences.comparisons@.len(),
{
    let mode = infer_risk_mode(records);
    let mut deltas: Vec<[i64; 8]> = Vec::new();
    let mut k: usize = 0;
    while k < preferences.comparisons.len()
        invariant
            k <= preferences.comparisons.len(),
            mode == inferred_risk_mode(records@),
            delta_ints(deltas@) == lessons_among(preferences.comparisons@, records@, mode, k as nat),
            deltas_in_range(deltas@),
            deltas@.len() <= k,
        decreases preferences.comparisons.len() - k,
    {
        let ghost held = deltas@;
        match lesson(&preferences.comparisons[k], records, mode) {
            Some(delta) => {
                deltas.push(delta);
                proof {
                    assert(delta_ints(deltas@) =~= delta_ints(held).push(ints(delta@)));
                    assert forall|p: int, m: int|
                        0 <= p < deltas@.len() && 0 <= m < 8 implies -0x2_0000_0000
                        <= #[trigger] deltas@[p]@[m] <= 0x2_0000_0000 by {
                        if p < held.len() {
                            assert(deltas@[p] == held[p]);
                        }
                    }
                }
            },
            None => {},
        }
        k += 1;
    }
    deltas
}

/// The smallest weight that the fit lets a criterion have before the
/// weights are normalized: a tenth.
pub const WEIGHT_FLOOR: u64 = 100_000_000;

/// The largest weight that the fit lets a criterion have before the weights
/// are normalized: ten.
pub const WEIGHT_CEILING: u64 = 10_000_000_000;

/// The sum of eight numbers.
pub open spec fn total8(w: Seq<int>) -> int {
    w[0] + w[1] + w[2] + w[3] + w[4] + w[5] + w[6] + w[7]
}

/// A weight after one multiplicative update: times the growth factor, held
/// between the floor and the ceiling.
pub open spec fn grown(weight: int, factor: int) -> int {
    let product = (weight * factor) / (WEIGHT_ONE as int);
    if product < WEIGHT_FLOOR {
        WEIGHT_FLOOR as int
    } else if product > WEIGHT_CEILING {
        WEIGHT_CEILING as int
    } else {
        product
    }
}

/// Eight weights scaled so that they sum to one, each rounded down; eight
/// equal weights where the sum is not positive.
pub open spec fn normalized(w: Seq<int>) -> Seq<int> {
    let total = total8(w);
    if total <= 0 {
        Seq::new(8, |k: int| WEIGHT_ONE as int / 8)
    } else {
        Seq::new(8, |k: int| (w[k] * WEIGHT_ONE) / total)
    }
}

/// The weights after learning from one comparison: each weight grows by its
/// factor, then all are normalized.
pub open spec fn mw_step(w: Seq<int>, factors: Seq<int>) -> Seq<int> {
    normalized(Seq::new(8, |k: int| grown(w[k], factors[k])))
}

/// Eight weights of one.
pub open spec fn unit_weights() -> Seq<int> {
    Seq::new(8, |k: int| WEIGHT_ONE as int)
}

/// The weights fitted to the comparisons at the first `n` of `indices`,
/// taken in that order: from eight weights of one, a step for each.
pub open spec fn mw_fit(factors: Seq<Seq<int>>, indices: Seq<usize>, n: nat) -> Seq<int>
    decreases n,
{
    if n == 0 {
        unit_weights()
    } else {
        mw_step(mw_fit(factors, indices, (n - 1) as nat), factors[indices[n - 1] as int])
    }
}

/// The numbers of an array of weights or factors, as integers.
pub open spec fn naturals(values: Seq<u64>) -> Seq<int> {
    Seq::new(values.len(), |k: int| values[k] as int)
}

/// The growth factors of a list, as integers.
pub open spec fn factor_ints(factors: Seq<[u64; 8]>) -> Seq<Seq<int>> {
    Seq::new(factors.len(), |k: int| naturals(factors[k]@))
}

/// Every index is a place of a list of `length` entries.
pub open spec fn indices_valid(indices: Seq<usize>, length: nat) -> bool {
    forall|k: int| 0 <= k < indices.len() ==> (#[trigger] indices[k]) < length
}

/// A part's share of a whole is between nothing and one.
proof fn lemma_share_bounded(part: int, total: int)
    requires
        0 <= part <= total,
        0 < total,
    ensures
        0 <= (part * WEIGHT_ONE) / total <= WEIGHT_ONE,
{
    assert(part * WEIGHT_ONE <= total * WEIGHT_ONE) by (nonlinear_arith)
        requires
            part <= total,
    ;
    assert(0 <= part * WEIGHT_ONE) by (nonlinear_arith)
        requires
            0 <= part,
    ;
    vstd::arithmetic::div_mod::lemma_div_is_ordered(part * WEIGHT_ONE, total * WEIGHT_ONE, total);
    vstd::arithmetic::div_mod::lemma_div_is_ordered(0, part * WEIGHT_ONE, total);
    vstd::arithmetic::div_mod::lemma_div_multiples_vanish(WEIGHT_ONE as int, total);
    assert(total * WEIGHT_ONE == WEIGHT_ONE * total) by (nonlinear_arith);
}

/// Normalized weights sum to one, up to the rounding of eight divisions:
/// the sum is at most one and misses it by less than eight billionths.
pub proof fn lemma_normalized_sums_to_one(w: Seq<int>)
    requires
        w.len() == 8,
        forall|k: int| 0 <= k < 8 ==> 0 <= #[trigger] w[k],
        total8(w) > 0,
    ensures
        WEIGHT_ONE - 7 <= total8(normalized(w)) <= WEIGHT_ONE,
        forall|k: int| 0 <= k < 8 ==> 0 <= #[trigger] normalized(w)[k] <= WEIGHT_ONE,
{
    let t = total8(w);
    let one = WEIGHT_ONE as int;
    let n = normalized(w);
    assert forall|k: int| 0 <= k < 8 implies 0 <= #[trigger] n[k] <= one && w[k] * one == t * n[k]
        + (w[k] * one) % t && 0 <= (w[k] * one) % t < t by {
        lemma_share_bounded(w[k], t);
        vstd::arithmetic::div_mod::lemma_fundamental_div_mod(w[k] * one, t);
        vstd::arithmetic::div_mod::lemma_mod_bound(w[k] * one, t);
    }
    let r = (w[0] * one) % t + (w[1] * one) % t + (w[2] * one) % t + (w[3] * one) % t + (w[4]
        * one) % t + (w[5] * one) % t + (w[6] * one) % t + (w[7] * one) % t;
    assert(n[0] == n[0] && n[1] == n[1] && n[2] == n[2] && n[3] == n[3] && n[4] == n[4] && n[5]
        == n[5] && n[6] == n[6] && n[7] == n[7]);
    let (w0, w1, w2, w3, w4, w5, w6, w7) = (w[0], w[1], w[2], w[3], w[4], w[5], w[6], w[7]);
    let (n0, n1, n2, n3, n4, n5, n6, n7) = (n[0], n[1], n[2], n[3], n[4], n[5], n[6], n[7]);
    assert((w0 + w1 + w2 + w3 + w4 + w5 + w6 + w7) * one == w0 * one + w1 * one + w2 * one + w3
        * one + w4 * one + w5 * one + w6 * one + w7 * one) by (nonlinear_arith);
    assert(t * (n0 + n1 + n2 + n3 + n4 + n5 + n6 + n7) == t * n0 + t * n1 + t * n2 + t * n3 + t
        * n4 + t * n5 + t * n6 + t * n7) by (nonlinear_arith);
    assert(t * one == t * total8(n) + r);
    assert(0 <= r < 8 * t);
    assert(one - 7 <= total8(n) <= one) by (nonlinear_arith)
        requires
            t * one == t * total8(n) + r,
            0 <= r < 8 * t,
            t > 0,
    ;
}

/// Scales eight weights so that they sum to one; eight equal weights where
/// they are all zero.
pub fn normalize_in_place(w: &mut [u64; 8])
    ensures
        naturals(final(w)@) == normalized(naturals(old(w)@)),
        forall|k: int| 0 <= k < 8 ==> #[trigger] final(w)@[k] <= WEIGHT_ONE,
{
    let ghost before = naturals(w@);
    let total: u128 = w[0] as u128 + w[1] as u128 + w[2] as u128 + w[3] as u128 + w[4] as u128
        + w[5] as u128 + w[6] as u128 + w[7] as u128;
    proof {
        assert(total == total8(before));
    }
    if total == 0 {
        let mut k: usize = 0;
        while k < 8
            invariant
                k <= 8,
                forall|m: int| 0 <= m < k ==> #[trigger] w@[m] == WEIGHT_ONE / 8,
            decreases 8 - k,
        {
            w[k] = WEIGHT_ONE / 8;
            k += 1;
        }
        proof {
            assert(naturals(w@) =~= normalized(before));
        }
        return ;
    }
    let mut k: usize = 0;
    while k < 8
        invariant
            k <= 8,
            total == total8(before),
            total > 0,
            before == naturals(old(w)@),
            forall|m: int| 0 <= m < k ==> #[trigger] w@[m] == (before[m] * WEIGHT_ONE) / (total as int),
            forall|m: int| 0 <= m < k ==> w@[m] <= WEIGHT_ONE,
            forall|m: int| k <= m < 8 ==> #[trigger] w@[m] == before[m],
        decreases 8 - k,
    {
        proof {
            assert(before[k as int] == old(w)@[k as int]);
            assert(0 <= before[k as int] <= total) by {
                assert(before[0] >= 0 && before[1] >= 0 && before[2] >= 0 && before[3] >= 0
                    && before[4] >= 0 && before[5] >= 0 && before[6] >= 0 && before[7] >= 0);
            }
            lemma_share_bounded(before[k as int], total as int);
            assert(before[k as int] * WEIGHT_ONE <= 0xffff_ffff_ffff_ffff * WEIGHT_ONE)
                by (nonlinear_arith)
                requires
                    before[k as int] <= 0xffff_ffff_ffff_ffff,
            ;
        }
        let share: u128 = (w[k] as u128 * WEIGHT_ONE as u128) / total;
        w[k] = share as u64;
        k += 1;
    }
    proof {
        assert(naturals(w@) =~= normalized(before));
    }
}

/// A weight after one multiplicative update.
fn grow(weight: u64, factor: u64) -> (next: u64)
    ensures
        next == grown(weight as int, factor as int),
        WEIGHT_FLOOR <= next <= WEIGHT_CEILING,
{
    proof {
        assert(weight * factor <= 0xffff_ffff_ffff_ffff * 0xffff_ffff_ffff_ffff) by (nonlinear_arith)
            requires
                0 <= weight <= 0xffff_ffff_ffff_ffff,
                0 <= factor <= 0xffff_ffff_ffff_ffff,
        ;
    }
    let product: u128 = (weight as u128 * factor as u128) / (WEIGHT_ONE as u128);
    if product < WEIGHT_FLOOR as u128 {
        WEIGHT_FLOOR
    } else if product > WEIGHT_CEILING as u128 {
        WEIGHT_CEILING
    } else {
        product as u64
    }
}

/// The weights after learning from one comparison.
fn step(w: &mut [u64; 8], factors: &[u64; 8])
    ensures
        naturals(final(w)@) == mw_step(naturals(old(w)@), naturals(factors@)),
{
    let ghost before = naturals(w@);
    let mut k: usize = 0;
    while k < 8
        invariant
            k <= 8,
            before == naturals(old(w)@),
            forall|m: int|
                0 <= m < k ==> #[trigger] w@[m] == grown(before[m], naturals(factors@)[m]),
            forall|m: int| k <= m < 8 ==> #[trigger] w@[m] == before[m],
        decreases 8 - k,
    {
        proof {
            assert(before[k as int] == w@[k as int]);
            assert(naturals(factors@)[k as int] == factors@[k as int]);
        }
        w[k] = grow(w[k], factors[k]);
        k += 1;
    }
    proof {
        assert(naturals(w@) =~= Seq::new(8, |m: int| grown(before[m], naturals(factors@)[m])));
    }
    normalize_in_place(w);
}

/// The weights read off an array of eight, in the fixed criterion order.
pub fn weights_of(w: &[u64; 8]) -> (weights: ScoringWeights)
    ensures
        weights.as_seq() == naturals(w@),
{
    let weights = ScoringWeights {
        feasibility: w[0],
        speed_to_value: w[1],
        differentiation: w[2],
        market_size: w[3],
        distribution: w[4],
        moats: w[5],
        risk: w[6],
        clarity: w[7],
    };
    proof {
        assert(weights.as_seq() =~= naturals(w@));
    }
    weights
}

/// Fits criterion weights to comparisons by multiplicative updates.
/// `factors[p][k]` is the factor by which comparison `p` makes the weight of
/// criterion `k` grow: the exponential of the learning rate (a twentieth)
/// times the difference of the two ideas in that criterion, in points. The
/// comparisons at `indices` are learned from, in that order: each weight is
/// multiplied by its factor and held between a tenth and ten, then all are
/// normalized. Without any comparison all weights are one.
pub fn fit_criterion_weights_pairwise_mw_on_indices(factors: &Vec<[u64; 8]>, indices: &Vec<usize>) -> (weights:
    ScoringWeights)
    requires
        indices_valid(indices@, factors@.len()),
    ensures
        weights.as_seq() == mw_fit(factor_ints(factors@), indices@, indices@.len()),
{
    let mut w: [u64; 8] = [
        WEIGHT_ONE,
        WEIGHT_ONE,
        WEIGHT_ONE,
        WEIGHT_ONE,
        WEIGHT_ONE,
        WEIGHT_ONE,
        WEIGHT_ONE,
        WEIGHT_ONE,
    ];
    proof {
        assert(naturals(w@) =~= unit_weights());
    }
    let mut k: usize = 0;
    while k < indices.len()
        invariant
            k <= indices.len(),
            indices_valid(indices@, factors@.len()),
            naturals(w@) == mw_fit(factor_ints(factors@), indices@, k as nat),
        decreases indices.len() - k,
    {
        let idx = indices[k];
        step(&mut w, &factors[idx]);
        k += 1;
    }
    weights_of(&w)
}

/// Weights fitted to at least one comparison sum to one, up to rounding:
/// the sum is at most one and misses it by less than eight billionths. Each
/// single weight is positive and at most one.
pub proof fn lemma_fitted_weights_sum_to_one(factors: Seq<Seq<int>>, indices: Seq<usize>, n: nat)
    requires
        0 < n <= indices.len(),
    ensures
        WEIGHT_ONE - 7 <= total8(mw_fit(factors, indices, n)) <= WEIGHT_ONE,
        forall|k: int| 0 <= k < 8 ==> 0 < #[trigger] mw_fit(factors, indices, n)[k] <= WEIGHT_ONE,
{
    let before = mw_fit(factors, indices, (n - 1) as nat);
    let f = factors[indices[n - 1] as int];
    let raised = Seq::new(8, |k: int| grown(before[k], f[k]));
    assert forall|k: int| 0 <= k < 8 implies WEIGHT_FLOOR <= #[trigger] raised[k]
        <= WEIGHT_CEILING by {}
    assert(raised[0] > 0 && raised[1] > 0 && raised[2] > 0 && raised[3] > 0 && raised[4] > 0
        && raised[5] > 0 && raised[6] > 0 && raised[7] > 0);
    lemma_normalized_sums_to_one(raised);
    let total = total8(raised);
    assert(total <= 8 * WEIGHT_CEILING);
    assert forall|k: int| 0 <= k < 8 implies 0 < #[trigger] mw_fit(factors, indices, n)[k] by {
        assert(raised[k] >= WEIGHT_FLOOR);
        assert(raised[k] * WEIGHT_ONE >= total) by (nonlinear_arith)
            requires
                raised[k] >= 100_000_000,
                total <= 80_000_000_000,
                WEIGHT_ONE == 1_000_000_000,
        ;
        vstd::arithmetic::div_mod::lemma_div_is_ordered(total, raised[k] * WEIGHT_ONE, total);
        vstd::arithmetic::div_mod::lemma_div_basics(total);
    }
}

/// How well a set of weights tells the comparisons it was not fitted to.
#[derive(Debug, Clone, Copy, PartialEq, Eq, Structural)]
pub struct Accuracy {
    /// The comparisons in which the idea preferred has at least the weighted
    /// score of the other one.
    pub correct: u64,
    /// The comparisons looked at.
    pub total: u64,
}

/// The weighted sum of eight features.
pub open spec fn dot(w: Seq<int>, f: Seq<int>) -> int {
    w[0] * f[0] + w[1] * f[1] + w[2] * f[2] + w[3] * f[3] + w[4] * f[4] + w[5] * f[5] + w[6] * f[6]
        + w[7] * f[7]
}

/// The weights tell a comparison right: the idea preferred has at least the
/// weighted score of the other one.
pub open spec fn tells_right(w: Seq<int>, delta: Seq<int>) -> bool {
    dot(w, delta) >= 0
}

/// How many of the comparisons at the first `n` of `indices` the weights
/// tell right.
pub open spec fn correct_among(deltas: Seq<Seq<int>>, w: Seq<int>, indices: Seq<usize>, n: nat) -> nat
    decreases n,
{
    if n == 0 {
        0
    } else if tells_right(w, deltas[indices[n - 1] as int]) {
        correct_among(deltas, w, indices, (n - 1) as nat) + 1
    } else {
        correct_among(deltas, w, indices, (n - 1) as nat)
    }
}

/// The product of a weight and a feature difference.
fn weigh_delta(weight: u64, delta: i64) -> (term: i128)
    requires
        -0x2_0000_0000 <= delta <= 0x2_0000_0000,
    ensures
        term == weight * delta,
        -0x2_0000_0000_0000_0000_0000_0000 <= term <= 0x2_0000_0000_0000_0000_0000_0000,
{
    let w: i128 = weight as i128;
    let d: i128 = delta as i128;
    assert(-0x2_0000_0000_0000_0000_0000_0000 <= w * d <= 0x2_0000_0000_0000_0000_0000_0000)
        by (nonlinear_arith)
        requires
            -0x2_0000_0000 <= d <= 0x2_0000_0000,
            0 <= w < 0x1_0000_0000_0000_0000,
    ;
    w * d
}

/// The weighted sum of eight feature differences.
pub fn dot_product(weights: &ScoringWeights, delta: &[i64; 8]) -> (sum: i128)
    requires
        forall|k: int| 0 <= k < 8 ==> -0x2_0000_0000 <= #[trigger] delta@[k] <= 0x2_0000_0000,
    ensures
        sum == dot(weights.as_seq(), ints(delta@)),
{
    proof {
        assert(ints(delta@)[0] == delta@[0] && ints(delta@)[1] == delta@[1] && ints(delta@)[2]
            == delta@[2] && ints(delta@)[3] == delta@[3] && ints(delta@)[4] == delta@[4] && ints(
            delta@,
        )[5] == delta@[5] && ints(delta@)[6] == delta@[6] && ints(delta@)[7] == delta@[7]);
    }
    weigh_delta(weights.feasibility, delta[0]) + weigh_delta(weights.speed_to_value, delta[1])
        + weigh_delta(weights.differentiation, delta[2]) + weigh_delta(
        weights.market_size,
        delta[3],
    ) + weigh_delta(weights.distribution, delta[4]) + weigh_delta(weights.moats, delta[5])
        + weigh_delta(weights.risk, delta[6]) + weigh_delta(weights.clarity, delta[7])
}

/// Counts how many of the comparisons at `indices` the weights tell right.
pub fn evaluate_pairwise_accuracy(deltas: &Vec<[i64; 8]>, weights: &ScoringWeights, indices: &Vec<usize>) -> (accuracy:
    Accuracy)
    requires
        deltas_in_range(deltas@),
        indices_valid(indices@, deltas@.len()),
    ensures
        accuracy.total == indices@.len(),
        accuracy.correct == correct_among(
            delta_ints(deltas@),
            weights.as_seq(),
            indices@,
            indices@.len(),
        ),
        accuracy.correct <= accuracy.total,
{
    let mut correct: u64 = 0;
    let mut k: usize = 0;
    while k < indices.len()
        invariant
            k <= indices.len(),
            deltas_in_range(deltas@),
            indices_valid(indices@, deltas@.len()),
            correct == correct_among(delta_ints(deltas@), weights.as_seq(), indices@, k as nat),
            correct <= k,
        decreases indices.len() - k,
    {
        let idx = indices[k];
        proof {
            assert forall|m: int| 0 <= m < 8 implies -0x2_0000_0000 <= #[trigger] deltas@[idx as int]@[m]
                <= 0x2_0000_0000 by {}
        }
        if dot_product(weights, &deltas[idx]) >= 0 {
            correct += 1;
        }
        k += 1;
    }
    Accuracy { correct, total: indices.len() as u64 }
}

/// What `rand`'s shuffle makes of a list of indices under the standard
/// generator seeded with `seed`: the same indices in another order.
pub uninterp spec fn shuffled(items: Seq<usize>, seed: u64) -> Seq<usize>;

/// `rand`'s `SliceRandom::shuffle`, with the standard generator seeded by
/// `StdRng::seed_from_u64`. The order that comes out is a function of the
/// list and the seed. Claimed besides: the shuffle only swaps entries, so the
/// list holds the same entries as before, each as often as before.
#[verifier::external_body]
fn shuffle_seeded(items: &mut Vec<usize>, seed: u64)
    ensures
        final(items)@ == shuffled(old(items)@, seed),
        final(items)@.to_multiset() == old(items)@.to_multiset(),
{
    let mut rng = rand::rngs::StdRng::seed_from_u64(seed);
    items.shuffle(&mut rng);
}

/// The indices `0..n` in ascending order.
pub open spec fn ascending(n: nat) -> Seq<usize> {
    Seq::new(n, |k: int| k as usize)
}

/// The indices `0..n` in the order that the seed gives them.
pub fn shuffled_indices(n: usize, seed: u64) -> (indices: Vec<usize>)
    ensures
        indices@ == shuffled(ascending(n as nat), seed),
        indices@.len() == n,
        indices_valid(indices@, n as nat),
{
    let mut indices: Vec<usize> = Vec::new();
    let mut k: usize = 0;
    while k < n
        invariant
            k <= n,
            indices@ == ascending(k as nat),
        decreases n - k,
    {
        indices.push(k);
        proof {
            assert(indices@ =~= ascending((k + 1) as nat));
        }
        k += 1;
    }
    let ghost sorted = indices@;
    shuffle_seeded(&mut indices, seed);
    proof {
        vstd::seq_lib::to_multiset_len(sorted);
        vstd::seq_lib::to_multiset_len(indices@);
        assert forall|m: int| 0 <= m < indices@.len() implies (#[trigger] indices@[m]) < n by {
            let x = indices@[m];
            assert(indices@.contains(x));
            vstd::seq_lib::to_multiset_contains(indices@, x);
            vstd::seq_lib::to_multiset_contains(sorted, x);
            let at = choose|at: int| 0 <= at < sorted.len() && sorted[at] == x;
        }
    }
    indices
}

/// How many of `n` comparisons are held out of the fit: the given share of
/// them (in millionths), rounded to the nearest whole number, and no more
/// than all.
pub open spec fn holdout_count(n: nat, holdout_ppm: u32) -> nat {
    let rounded = (n * holdout_ppm + 500_000) / 1_000_000;
    if rounded <= n {
        rounded as nat
    } else {
        n
    }
}

/// The entries `from..to` of a list.
fn part_of(items: &Vec<usize>, from: usize, to: usize) -> (part: Vec<usize>)
    requires
        from <= to <= items@.len(),
    ensures
        part@ == items@.subrange(from as int, to as int),
{
    let mut part: Vec<usize> = Vec::new();
    let mut k: usize = from;
    while k < to
        invariant
            from <= k <= to,
            to <= items@.len(),
            part@ == items@.subrange(from as int, k as int),
        decreases to - k,
    {
        part.push(items[k]);
        proof {
            assert(part@ =~= items@.subrange(from as int, k + 1));
        }
        k += 1;
    }
    part
}

/// What a holdout fit reports: the accuracy, on the comparisons held out,
/// of the weights fitted to the others; nothing where none is held out.
pub open spec fn holdout_accuracy(
    deltas: Seq<Seq<int>>,
    factors: Seq<Seq<int>>,
    order: Seq<usize>,
    held_out: nat,
) -> Option<Accuracy> {
    if held_out == 0 {
        None
    } else {
        let train = order.subrange(held_out as int, order.len() as int);
        let test = order.subrange(0, held_out as int);
        Some(
            Accuracy {
                correct: correct_among(deltas, mw_fit(factors, train, train.len()), test, test.len()) as u64,
                total: held_out as u64,
            },
        )
    }
}

/// Fits criterion weights to the comparisons and estimates how well such a
/// fit tells comparisons it has not seen. The comparisons are put in the
/// order that the seed gives; the first `holdout_ppm` millionths of them are
/// held out, weights are fitted to the rest and tried on those held out. The
/// weights returned are fitted to all comparisons, in the shuffled order; the
/// holdout serves the estimate alone.
pub fn fit_criterion_weights_pairwise_mw(
    deltas: &Vec<[i64; 8]>,
    factors: &Vec<[u64; 8]>,
    holdout_ppm: u32,
    seed: u64,
) -> (fitted: (ScoringWeights, Option<Accuracy>))
    requires
        deltas@.len() == factors@.len(),
        deltas_in_range(deltas@),
    ensures
        fitted.0.as_seq() == mw_fit(
            factor_ints(factors@),
            shuffled(ascending(deltas@.len()), seed),
            deltas@.len(),
        ),
        fitted.1 == holdout_accuracy(
            delta_ints(deltas@),
            factor_ints(factors@),
            shuffled(ascending(deltas@.len()), seed),
            holdout_count(deltas@.len(), holdout_ppm),
        ),
{
    let n = deltas.len();
    let indices = shuffled_indices(n, seed);
    proof {
        assert(n * holdout_ppm <= 0xffff_ffff_ffff_ffff * 0xffff_ffff) by (nonlinear_arith)
            requires
                0 <= n <= 0xffff_ffff_ffff_ffff,
                0 <= holdout_ppm <= 0xffff_ffff,
        ;
    }
    let rounded: u128 = (n as u128 * holdout_ppm as u128 + 500_000) / 1_000_000;
    let test_count: usize = if rounded <= n as u128 {
        rounded as usize
    } else {
        n
    };
    let test_idx = part_of(&indices, 0, test_count);
    let train_idx = part_of(&indices, test_count, n);
    let weights_train = fit_criterion_weights_pairwise_mw_on_indices(factors, &train_idx);
    let accuracy = if test_idx.len() == 0 {
        None
    } else {
        Some(evaluate_pairwise_accuracy(deltas, &weights_train, &test_idx))
    };
    let weights_all = fit_criterion_weights_pairwise_mw_on_indices(factors, &indices);
    (weights_all, accuracy)
}

/// The name of the criterion at place `k` of the fixed criterion order.
pub open spec fn criterion_name(k: int) -> Seq<char> {
    if k == 0 {
        "feasibility"@
    } else if k == 1 {
        "speed_to_value"@
    } else if k == 2 {
        "differentiation"@
    } else if k == 3 {
        "market_size"@
    } else if k == 4 {
        "distribution"@
    } else if k == 5 {
        "moats"@
    } else if k == 6 {
        "risk"@
    } else {
        "clarity"@
    }
}

/// The weights as ranking keys.
pub open spec fn weight_keys(weights: ScoringWeights) -> Seq<i128> {
    Seq::new(8, |k: int| weights.as_seq()[k] as i128)
}

/// The two sentences that sum a set of weights up: the two criteria that
/// weigh most, heaviest first, and the two that weigh least, lightest first.
/// Criteria of equal weight rank in the fixed criterion order.
pub open spec fn summary_of(weights: ScoringWeights) -> Seq<Seq<char>> {
    let order = ranking(weight_keys(weights));
    seq![
        "Prioritizes "@ + criterion_name(order[0] as int) + " and "@ + criterion_name(
            order[1] as int,
        ) + " over other criteria."@,
        "De-emphasizes "@ + criterion_name(order[7] as int) + " and "@ + criterion_name(
            order[6] as int,
        ) + " relative to other criteria."@,
    ]
}

/// The name of the criterion at place `k` of the fixed criterion order.
fn name_of(k: usize) -> (name: &'static str)
    ensures
        name@ == criterion_name(k as int),
{
    if k == 0 {
        "feasibility"
    } else if k == 1 {
        "speed_to_value"
    } else if k == 2 {
        "differentiation"
    } else if k == 3 {
        "market_size"
    } else if k == 4 {
        "distribution"
    } else if k == 5 {
        "moats"
    } else if k == 6 {
        "risk"
    } else {
        "clarity"
    }
}

/// Sums a set of weights up in two sentences: which two criteria it
/// prioritizes and which two it de-emphasizes.
pub fn summarize_weights(weights: &ScoringWeights) -> (summary: Vec<String>)
    ensures
        crate::discovery::texts(summary@) == summary_of(*weights),
{
    let mut keys: Vec<i128> = Vec::new();
    keys.push(weights.feasibility as i128);
    keys.push(weights.speed_to_value as i128);
    keys.push(weights.differentiation as i128);
    keys.push(weights.market_size as i128);
    keys.push(weights.distribution as i128);
    keys.push(weights.moats as i128);
    keys.push(weights.risk as i128);
    keys.push(weights.clarity as i128);
    proof {
        assert(keys@ =~= weight_keys(*weights));
    }
    let order = rank_descending(&keys);
    let first = join("Prioritizes ", name_of(order[0])).concat(" and ").concat(name_of(order[1])).concat(
        " over other criteria.",
    );
    let second = join("De-emphasizes ", name_of(order[7])).concat(" and ").concat(
        name_of(order[6]),
    ).concat(" relative to other criteria.");
    let mut summary: Vec<String> = Vec::new();
    summary.push(first);
    summary.push(second);
    proof {
        assert(crate::discovery::texts(summary@) =~= summary_of(*weights));
    }
    summary
}

/// What was learned from the comparisons of a run.
#[derive(Debug, Clone, PartialEq, Eq)]
pub struct DerivedProfile {
    /// The fitted weight of each criterion.
    pub criterion_weights: ScoringWeights,
    /// The name of the fitting method.
    pub method: String,
    /// How many comparisons the weights were fitted to.
    pub comparisons_used: usize,
    /// How well weights fitted to a part of the comparisons told the rest;
    /// absent where no comparison was held out.
    pub holdout_accuracy: Option<Accuracy>,
    /// The weights summed up in two sentences.
    pub summary: Vec<String>,
}

/// The share of the comparisons that is held out of the fit for the
/// estimate of its accuracy: a fifth, in millionths.
pub const HOLDOUT_SHARE: u32 = 200_000;

/// The seed of the shuffle that decides which comparisons are held out.
pub const HOLDOUT_SEED: u64 = 1;

/// `profile` is what is learned from comparisons with the feature
/// differences `deltas` and the growth factors `factors`.
pub open spec fn is_derived_from(profile: DerivedProfile, deltas: Seq<Seq<int>>, factors: Seq<
    Seq<int>,
>) -> bool {
    let order = shuffled(ascending(deltas.len()), HOLDOUT_SEED);
    &&& profile.criterion_weights.as_seq() == mw_fit(factors, order, deltas.len())
    &&& profile.method@ == "pairwise-multiplicative-weights"@
    &&& profile.comparisons_used == deltas.len()
    &&& profile.holdout_accuracy == holdout_accuracy(
        deltas,
        factors,
        order,
        holdout_count(deltas.len(), HOLDOUT_SHARE),
    )
    &&& crate::discovery::texts(profile.summary@) == summary_of(profile.criterion_weights)
}

/// Derives a preference profile from the comparisons on record and the
/// scores of the ideas compared. `factors` holds one row for each comparison
/// that teaches something (see `preference_deltas`), in their order: for each
/// criterion the factor by which the comparison makes the weight grow.
/// Nothing is derived where no comparison teaches anything, nor where
/// `factors` has not one row for each comparison that does.
pub fn derive_preference_profile(
    preferences: &Preferences,
    records: &Vec<IdeaRecord>,
    factors: &Vec<[u64; 8]>,
) -> (derived: Option<DerivedProfile>)
    ensures
        derived is None <==> (lessons(*preferences, records@).len() == 0 || factors@.len()
            != lessons(*preferences, records@).len()),
        derived is Some ==> is_derived_from(
            derived->0,
            lessons(*preferences, records@),
            factor_ints(factors@),
        ),
{
    if preferences.comparisons.len() == 0 {
        return None;
    }
    let deltas = preference_deltas(preferences, records);
    if deltas.len() == 0 || factors.len() != deltas.len() {
        return None;
    }
    let (weights, accuracy) = fit_criterion_weights_pairwise_mw(
        &deltas,
        factors,
        HOLDOUT_SHARE,
        HOLDOUT_SEED,
    );
    let summary = summarize_weights(&weights);
    Some(
        DerivedProfile {
            criterion_weights: weights,
            method: String::from_str("pairwise-multiplicative-weights"),
            comparisons_used: deltas.len(),
            holdout_accuracy: accuracy,
            summary,
        },
    )
}

/// `chrono::Utc::now`, written out by `DateTime::to_rfc3339`. The value is
/// the clock's, so nothing is claimed of it.
#[verifier::external_body]
fn now_rfc3339() -> (stamp: String) {
    chrono::Utc::now().to_rfc3339()
}

/// The counts that a portable profile shows of its preferences.
#[derive(Debug, Clone, Copy, PartialEq, Eq, Structural)]
pub struct ProfileStats {
    /// How many comparisons are on record.
    pub comparisons: usize,
    /// How many identifiers have a rating.
    pub ideas_rated: usize,
}

/// The preferences of a run in a form that another run can take in. In a
/// profile read from outside the version, the source and the preferences may
/// be missing.
#[derive(Debug, Clone, PartialEq, Eq)]
pub struct PortableProfile {
    pub version: Option<i64>,
    /// When the profile was made, in RFC 3339 form.
    pub created_at: String,
    pub source_run: Option<String>,
    pub stats: ProfileStats,
    pub preferences: Option<Preferences>,
    pub derived: Option<DerivedProfile>,
}

/// The version of the profiles that this library writes and reads.
pub const PROFILE_VERSION: i64 = 1;

/// Why a profile cannot be taken in.
#[derive(Debug, Clone, Copy, PartialEq, Eq, Structural)]
pub enum ProfileError {
    /// The profile names no version.
    MissingVersion,
    /// The profile is of a version that is not supported.
    UnsupportedVersion { version: i64 },
    /// The profile holds no preferences.
    MissingPreferences,
}

/// `profile` is the export of the preferences of the run `run_id`, with
/// what was derived from them.
pub open spec fn is_export_of(
    profile: PortableProfile,
    run_id: Seq<char>,
    preferences: Preferences,
    derived: Option<DerivedProfile>,
) -> bool {
    &&& profile.version == Some(PROFILE_VERSION)
    &&& profile.source_run is Some && profile.source_run->0@ == run_id
    &&& profile.stats.comparisons == preferences.comparisons@.len()
    &&& profile.stats.ideas_rated == rated_total(
        preferences.elo_ratings@,
        preferences.elo_ratings@.len(),
    )
    &&& profile.preferences == Some(preferences)
    &&& profile.derived == derived
}

/// What taking a profile in gives: its preferences, or the reason why it
/// cannot be taken in. The version is looked at first.
pub open spec fn import_outcome(profile: PortableProfile) -> Result<Preferences, ProfileError> {
    match profile.version {
        None => Err(ProfileError::MissingVersion),
        Some(version) => if version != PROFILE_VERSION {
            Err(ProfileError::UnsupportedVersion { version })
        } else {
            match profile.preferences {
                None => Err(ProfileError::MissingPreferences),
                Some(preferences) => Ok(preferences),
            }
        },
    }
}

/// A profile that is exported and then taken in gives back the preferences
/// unchanged: every comparison and every rating.
pub proof fn lemma_export_then_import(
    profile: PortableProfile,
    run_id: Seq<char>,
    preferences: Preferences,
    derived: Option<DerivedProfile>,
)
    requires
        is_export_of(profile, run_id, preferences, derived),
    ensures
        import_outcome(profile) == Ok::<Preferences, ProfileError>(preferences),
{
}

/// Packs the preferences of a run, and what was derived from them, into a
/// portable profile stamped with the current time.
pub fn build_portable_profile(run_id: &str, preferences: Preferences, derived: Option<DerivedProfile>) -> (profile:
    PortableProfile)
    ensures
        is_export_of(profile, run_id@, preferences, derived),
{
    let stats = ProfileStats {
        comparisons: preferences.comparisons.len(),
        ideas_rated: count_rated(&preferences.elo_ratings),
    };
    PortableProfile {
        version: Some(PROFILE_VERSION),
        created_at: now_rfc3339(),
        source_run: Some(run_id.to_owned()),
        stats,
        preferences: Some(preferences),
        derived,
    }
}

/// Takes a profile in: hands out its preferences, to seed the tournament of
/// another run. Fails where the profile names no version, is of another
/// version than 1, or holds no preferences.
pub fn import_profile(profile: PortableProfile) -> (result: Result<Preferences, ProfileError>)
    ensures
        result == import_outcome(profile),
{
    match profile.version {
        None => Err(ProfileError::MissingVersion),
        Some(version) => {
            if version != PROFILE_VERSION {
                Err(ProfileError::UnsupportedVersion { version })
            } else {
                match profile.preferences {
                    None => Err(ProfileError::MissingPreferences),
                    Some(preferences) => Ok(preferences),
                }
            }
        },
    }
}

} // verus!
