//! The pairwise tournament over the survivors of a run: who may take part,
//! which pair is compared next, how a decision moves the Elo ratings, and the
//! standings.
//!
//! Ratings are fixed-point numbers counted in thousandths of an Elo point;
//! expected scores are counted in millionths.

use vstd::prelude::*;
use vstd::string::StringExecFns;
use crate::data::Scores;
use crate::llm::ScoresDraft;
use crate::llm::text_or;
use crate::llm::text_or_else;
use crate::ranking::arranged;
use crate::ranking::rank_candidates;
use crate::ranking::ranking;
use crate::text::decimal;
use crate::text::decimal_text;
use crate::text::join;
use crate::text::same_text;
use crate::text::to_uppercase;
use crate::text::trim;
use crate::text::trimmed;
use crate::text::uppercased;

verus! {

/// The rating of an idea that has none yet: 1000 Elo points.
pub const DEFAULT_ELO: i64 = 1_000_000;

/// The K-factor of the rating update: 32 Elo points.
pub const K_FACTOR: i64 = 32_000;

/// The expected score of a certain win: 1.0, in millionths.
pub const EXPECTED_ONE: u32 = 1_000_000;

/// An idea as a stored snapshot of a run holds it: every part may be
/// missing or malformed, and is then absent here.
#[derive(Debug, Clone, PartialEq, Eq)]
pub struct IdeaRecord {
    pub id: Option<String>,
    pub title: Option<String>,
    /// The origin tag: "generated", "crossover", "mutated" or "refined".
    pub origin: Option<String>,
    /// How many parents the idea lists; absent where it has no parent list.
    pub parent_count: Option<usize>,
    /// The status tag: "active" or "archived".
    pub status: Option<String>,
    pub scores: Option<ScoresDraft>,
    pub overall_score: Option<i64>,
}

impl IdeaRecord {
    /// The identifier, or "unknown" where the record has none.
    pub open spec fn id_text(self) -> Seq<char> {
        text_or(self.id, "unknown"@)
    }

    /// The record is marked active.
    pub open spec fn is_active(self) -> bool {
        self.status is Some && self.status->0@ == "active"@
    }

    /// The criterion scores, where all eight are there.
    pub open spec fn complete_scores(self) -> Option<Scores> {
        match self.scores {
            Some(draft) => if draft.is_complete() {
                Some(draft.or_zero())
            } else {
                None
            },
            None => None,
        }
    }

    /// The record has an overall score and all eight criterion scores.
    pub open spec fn is_scored(self) -> bool {
        self.overall_score is Some && self.complete_scores() is Some
    }

    /// The record may take part in a tournament: it is active and scored.
    pub open spec fn is_eligible(self) -> bool {
        self.is_active() && self.is_scored()
    }
}

/// The criterion scores of a record, where all eight are there.
pub fn extract_scores(record: &IdeaRecord) -> (scores: Option<Scores>)
    ensures
        scores == record.complete_scores(),
{
    match &record.scores {
        None => None,
        Some(draft) => {
            if draft.feasibility.is_some() && draft.speed_to_value.is_some()
                && draft.differentiation.is_some() && draft.market_size.is_some()
                && draft.distribution.is_some() && draft.moats.is_some() && draft.risk.is_some()
                && draft.clarity.is_some() {
                Some(draft.to_scores())
            } else {
                None
            }
        },
    }
}

/// True when the record has an overall score and all eight criterion scores.
pub fn idea_has_complete_scores(record: &IdeaRecord) -> (complete: bool)
    ensures
        complete == record.is_scored(),
{
    if record.overall_score.is_none() {
        return false;
    }
    extract_scores(record).is_some()
}

/// True when the record is marked active.
pub fn is_active_record(record: &IdeaRecord) -> (active: bool)
    ensures
        active == record.is_active(),
{
    match &record.status {
        Some(status) => same_text(status.as_str(), "active"),
        None => false,
    }
}

/// The identifier of a record, or "unknown" where it has none.
pub fn record_id(record: &IdeaRecord) -> (id: String)
    ensures
        id@ == record.id_text(),
{
    text_or_else(&record.id, "unknown")
}

/// The places, among the first `n` records, of those that may take part.
pub open spec fn eligible_positions(records: Seq<IdeaRecord>, n: nat) -> Seq<usize>
    decreases n,
{
    if n == 0 {
        Seq::empty()
    } else if records[n - 1].is_eligible() {
        eligible_positions(records, (n - 1) as nat).push((n - 1) as usize)
    } else {
        eligible_positions(records, (n - 1) as nat)
    }
}

/// How many of the first `n` records are marked active.
pub open spec fn active_records(records: Seq<IdeaRecord>, n: nat) -> nat
    decreases n,
{
    if n == 0 {
        0
    } else if records[n - 1].is_active() {
        active_records(records, (n - 1) as nat) + 1
    } else {
        active_records(records, (n - 1) as nat)
    }
}

/// Who takes part in a tournament.
#[derive(Debug, Clone, PartialEq, Eq)]
pub struct Eligibility {
    /// The places of the records that take part, in their order.
    pub eligible: Vec<usize>,
    /// How many records are active, scored or not.
    pub active: usize,
}

impl Eligibility {
    /// How many active records were left out for want of scores.
    pub fn excluded(&self) -> (count: usize)
        ensures
            count == if self.active >= self.eligible@.len() {
                self.active - self.eligible@.len()
            } else {
                0
            },
    {
        if self.active >= self.eligible.len() {
            self.active - self.eligible.len()
        } else {
            0
        }
    }
}

/// Why a tournament cannot be held.
#[derive(Debug, Clone, Copy, PartialEq, Eq, Structural)]
pub enum TournamentError {
    /// Fewer than two active ideas are scored.
    TooFewEligible { eligible: usize, active: usize },
}

impl TournamentError {
    /// The error in words.
    pub open spec fn message(self) -> Seq<char> {
        match self {
            TournamentError::TooFewEligible { eligible, active } =>
                "Need at least 2 scored active ideas for tournament (found "@ + decimal(
                eligible as nat,
            ) + " scored of "@ + decimal(active as nat) + " active)."@,
        }
    }

    /// The error in words.
    pub fn describe(&self) -> (text: String)
        ensures
            text@ == self.message(),
    {
        match self {
            TournamentError::TooFewEligible { eligible, active } => {
                let found = decimal_text(*eligible as u64);
                let of = decimal_text(*active as u64);
                join("Need at least 2 scored active ideas for tournament (found ", found.as_str()).concat(
                    " scored of ",
                ).concat(of.as_str()).concat(" active).")
            },
        }
    }
}

/// Every place listed is the place of a record that may take part, and no
/// more records take part than are active.
proof fn lemma_eligible_positions_valid(records: Seq<IdeaRecord>, n: nat)
    requires
        n <= records.len(),
        records.len() <= usize::MAX,
    ensures
        eligible_positions(records, n).len() <= active_records(records, n) <= n,
        forall|k: int|
            0 <= k < eligible_positions(records, n).len() ==> (#[trigger] eligible_positions(
                records,
                n,
            )[k]) < n && records[eligible_positions(records, n)[k] as int].is_eligible(),
    decreases n,
{
    if n > 0 {
        lemma_eligible_positions_valid(records, (n - 1) as nat);
        let prev = eligible_positions(records, (n - 1) as nat);
        let now = eligible_positions(records, n);
        assert forall|k: int| 0 <= k < now.len() implies (#[trigger] now[k]) < n
            && records[now[k] as int].is_eligible() by {
            if k < prev.len() {
                assert(now[k] == prev[k]);
            }
        }
    }
}

/// Finds who takes part in a tournament: the active records that have an
/// overall score and all eight criterion scores. Fails where they are fewer
/// than two.
pub fn eligible_ideas(records: &Vec<IdeaRecord>) -> (result: Result<Eligibility, TournamentError>)
    ensures
        eligible_positions(records@, records@.len()).len() < 2 <==> result is Err,
        result is Err ==> result == Err::<Eligibility, TournamentError>(
            TournamentError::TooFewEligible {
                eligible: eligible_positions(records@, records@.len()).len() as usize,
                active: active_records(records@, records@.len()) as usize,
            },
        ),
        result is Ok ==> result->Ok_0.eligible@ == eligible_positions(records@, records@.len())
            && result->Ok_0.active == active_records(records@, records@.len()),
        result is Ok ==> forall|k: int|
            0 <= k < result->Ok_0.eligible@.len() ==> (#[trigger] result->Ok_0.eligible@[k])
                < records@.len() && records@[result->Ok_0.eligible@[k] as int].is_eligible(),
{
    let mut eligible: Vec<usize> = Vec::new();
    let mut active: usize = 0;
    let mut k: usize = 0;
    while k < records.len()
        invariant
            k <= records.len(),
            eligible@ == eligible_positions(records@, k as nat),
            active == active_records(records@, k as nat),
            active <= k,
        decreases records.len() - k,
    {
        let record = &records[k];
        if is_active_record(record) {
            active += 1;
            if idea_has_complete_scores(record) {
                eligible.push(k);
            }
        }
        k += 1;
    }
    proof {
        lemma_eligible_positions_valid(records@, records@.len());
    }
    if eligible.len() < 2 {
        Err(TournamentError::TooFewEligible { eligible: eligible.len(), active })
    } else {
        Ok(Eligibility { eligible, active })
    }
}

/// The cap on the comparisons of a pairwise tournament over `n` ideas: twice
/// their number.
pub fn calculate_pairwise_limit(n: usize) -> (limit: usize)
    requires
        2 * n <= usize::MAX,
    ensures
        limit == 2 * n,
{
    2 * n
}

/// One recorded comparison: the two ideas shown and the one preferred. In
/// a stored record each part may be missing.
#[derive(Debug, Clone, PartialEq, Eq)]
pub struct Comparison {
    pub idea_a: Option<String>,
    pub idea_b: Option<String>,
    pub winner: Option<String>,
}

/// The Elo rating of one idea, in thousandths of a point.
#[derive(Debug, Clone, PartialEq, Eq)]
pub struct Rating {
    pub id: String,
    pub elo: i64,
}

/// The preferences learned in the tournaments of a run: the comparisons
/// made, in the order made, and the current rating of each idea rated. The
/// ratings are a map from identifiers to ratings, kept as a list: no function
/// of the library gives an identifier a second entry, and where a list from
/// outside has one, the first entry counts.
#[derive(Debug, Clone, PartialEq, Eq)]
pub struct Preferences {
    pub comparisons: Vec<Comparison>,
    pub elo_ratings: Vec<Rating>,
}

/// The place of the first rating at or behind `from` that is for `id`.
pub open spec fn rating_place(ratings: Seq<Rating>, id: Seq<char>, from: int) -> Option<int>
    decreases ratings.len() - from,
{
    if from < 0 || from >= ratings.len() {
        None
    } else if ratings[from].id@ == id {
        Some(from)
    } else {
        rating_place(ratings, id, from + 1)
    }
}

/// The rating of `id`: the first one listed for it, and the default of 1000
/// points where none is.
pub open spec fn rating_of(ratings: Seq<Rating>, id: Seq<char>) -> int {
    match rating_place(ratings, id, 0) {
        Some(at) => ratings[at].elo as int,
        None => DEFAULT_ELO as int,
    }
}

/// True when a rating is listed for `id`.
pub open spec fn is_rated(ratings: Seq<Rating>, id: Seq<char>) -> bool {
    rating_place(ratings, id, 0) is Some
}

/// Where a rating is found it is the first for the identifier; where none
/// is found there is none.
proof fn lemma_rating_place_found(ratings: Seq<Rating>, id: Seq<char>, from: int)
    requires
        0 <= from,
    ensures
        rating_place(ratings, id, from) is Some ==> from <= rating_place(ratings, id, from)->0
            < ratings.len() && ratings[rating_place(ratings, id, from)->0].id@ == id,
        rating_place(ratings, id, from) is None ==> forall|k: int|
            from <= k < ratings.len() ==> (#[trigger] ratings[k]).id@ != id,
        forall|k: int|
            from <= k < ratings.len() && rating_place(ratings, id, from) is Some && k
                < rating_place(ratings, id, from)->0 ==> (#[trigger] ratings[k]).id@ != id,
    decreases ratings.len() - from,
{
    if from < ratings.len() && ratings[from].id@ != id {
        lemma_rating_place_found(ratings, id, from + 1);
    }
}

/// The first rating for an identifier is the one that is found.
proof fn lemma_rating_place_is(ratings: Seq<Rating>, id: Seq<char>, from: int, at: int)
    requires
        0 <= from <= at < ratings.len(),
        ratings[at].id@ == id,
        forall|k: int| from <= k < at ==> (#[trigger] ratings[k]).id@ != id,
    ensures
        rating_place(ratings, id, from) == Some(at),
    decreases at - from,
{
    if from < at {
        lemma_rating_place_is(ratings, id, from + 1, at);
    }
}

/// Where no rating is for the identifier, none is found.
proof fn lemma_rating_place_none(ratings: Seq<Rating>, id: Seq<char>, from: int)
    requires
        0 <= from,
        forall|k: int| from <= k < ratings.len() ==> (#[trigger] ratings[k]).id@ != id,
    ensures
        rating_place(ratings, id, from) is None,
    decreases ratings.len() - from,
{
    if from < ratings.len() {
        lemma_rating_place_none(ratings, id, from + 1);
    }
}

/// How many identifiers have a rating among the first `n` entries: the
/// entries that are the first for their identifier.
pub open spec fn rated_total(ratings: Seq<Rating>, n: nat) -> nat
    decreases n,
{
    if n == 0 {
        0
    } else if rating_place(ratings, ratings[n - 1].id@, 0) == Some(n - 1) {
        rated_total(ratings, (n - 1) as nat) + 1
    } else {
        rated_total(ratings, (n - 1) as nat)
    }
}

/// No identifier has two ratings.
pub open spec fn no_double_ratings(ratings: Seq<Rating>) -> bool {
    forall|j: int, k: int|
        0 <= j < k < ratings.len() ==> (#[trigger] ratings[j]).id@ != (#[trigger] ratings[k]).id@
}

/// Where no identifier has two ratings, as many identifiers are rated as
/// there are entries.
pub proof fn lemma_all_rated_once(ratings: Seq<Rating>, n: nat)
    requires
        n <= ratings.len(),
        no_double_ratings(ratings),
    ensures
        rated_total(ratings, n) == n,
    decreases n,
{
    if n > 0 {
        lemma_all_rated_once(ratings, (n - 1) as nat);
        lemma_rating_place_is(ratings, ratings[n - 1].id@, 0, n - 1);
    }
}

/// The place of the first rating for `id`.
fn find_rating(ratings: &Vec<Rating>, id: &str) -> (at: Option<usize>)
    ensures
        at is Some <==> rating_place(ratings@, id@, 0) is Some,
        at is Some ==> at->0 == rating_place(ratings@, id@, 0)->0 && at->0 < ratings@.len()
            && ratings@[at->0 as int].id@ == id@,
{
    let mut k: usize = 0;
    while k < ratings.len()
        invariant
            k <= ratings.len(),
            rating_place(ratings@, id@, 0) == rating_place(ratings@, id@, k as int),
        decreases ratings.len() - k,
    {
        if same_text(ratings[k].id.as_str(), id) {
            return Some(k);
        }
        k += 1;
    }
    None
}

/// How many identifiers have a rating: an identifier that is listed more
/// than once counts once.
pub fn count_rated(ratings: &Vec<Rating>) -> (count: usize)
    ensures
        count == rated_total(ratings@, ratings@.len()),
        count <= ratings@.len(),
{
    let mut count: usize = 0;
    let mut k: usize = 0;
    while k < ratings.len()
        invariant
            k <= ratings.len(),
            count == rated_total(ratings@, k as nat),
            count <= k,
        decreases ratings.len() - k,
    {
        let first = match find_rating(ratings, ratings[k].id.as_str()) {
            Some(at) => at == k,
            None => false,
        };
        if first {
            count += 1;
        }
        k += 1;
    }
    count
}

/// The rating of `id`: the first one listed for it, and 1000 points where
/// none is.
pub fn lookup_rating(ratings: &Vec<Rating>, id: &str) -> (elo: i64)
    ensures
        elo == rating_of(ratings@, id@),
{
    match find_rating(ratings, id) {
        Some(at) => ratings[at].elo,
        None => DEFAULT_ELO,
    }
}

/// Sets the rating of `id` to `elo`: in place where one is listed, as a new
/// entry at the end where none is. No other rating changes.
pub fn set_rating(ratings: &mut Vec<Rating>, id: &str, elo: i64)
    ensures
        forall|other: Seq<char>|
            #[trigger] rating_of(final(ratings)@, other) == if other == id@ {
                elo as int
            } else {
                rating_of(old(ratings)@, other)
            },
        forall|other: Seq<char>|
            #[trigger] is_rated(final(ratings)@, other) <==> (is_rated(old(ratings)@, other)
                || other == id@),
        is_rated(old(ratings)@, id@) ==> final(ratings)@.len() == old(ratings)@.len(),
        !is_rated(old(ratings)@, id@) ==> final(ratings)@.len() == old(ratings)@.len() + 1,
        forall|k: int|
            0 <= k < old(ratings)@.len() ==> (#[trigger] final(ratings)@[k]).id@ == old(
                ratings,
            )@[k].id@,
        no_double_ratings(old(ratings)@) ==> no_double_ratings(final(ratings)@),
{
    let ghost before = ratings@;
    match find_rating(ratings, id) {
        Some(at) => {
            ratings[at].elo = elo;
            proof {
                let after = ratings@;
                assert(after.len() == before.len());
                assert forall|k: int| 0 <= k < before.len() implies (#[trigger] after[k]).id@
                    == before[k].id@ by {}
                assert forall|other: Seq<char>|
                    rating_place(after, other, 0) == rating_place(before, other, 0) by {
                    lemma_rating_place_found(before, other, 0);
                    if rating_place(before, other, 0) is Some {
                        let p = rating_place(before, other, 0)->0;
                        assert forall|k: int| 0 <= k < p implies (#[trigger] after[k]).id@
                            != other by {
                            assert(before[k].id@ != other);
                        }
                        lemma_rating_place_is(after, other, 0, p);
                    } else {
                        assert forall|k: int| 0 <= k < after.len() implies (#[trigger] after[k]).id@
                            != other by {
                            assert(before[k].id@ != other);
                        }
                        lemma_rating_place_none(after, other, 0);
                    }
                }
                assert forall|other: Seq<char>|
                    #[trigger] rating_of(after, other) == if other == id@ {
                        elo as int
                    } else {
                        rating_of(before, other)
                    } by {
                    assert(rating_place(after, other, 0) == rating_place(before, other, 0));
                    lemma_rating_place_found(before, other, 0);
                }
                assert forall|other: Seq<char>|
                    #[trigger] is_rated(after, other) <==> (is_rated(before, other) || other
                        == id@) by {
                    assert(rating_place(after, other, 0) == rating_place(before, other, 0));
                }
                if no_double_ratings(before) {
                    assert forall|j: int, k: int| 0 <= j < k < after.len() implies (#[trigger] after[j]).id@
                        != (#[trigger] after[k]).id@ by {
                        assert(after[j].id@ == before[j].id@ && after[k].id@ == before[k].id@);
                    }
                }
            }
        },
        None => {
            ratings.push(Rating { id: id.to_owned(), elo });
            proof {
                let after = ratings@;
                lemma_rating_place_found(before, id@, 0);
                assert forall|other: Seq<char>|
                    #[trigger] rating_place(after, other, 0) == if rating_place(before, other, 0)
                        is Some {
                        rating_place(before, other, 0)
                    } else if other == id@ {
                        Some(before.len() as int)
                    } else {
                        None
                    } by {
                    lemma_rating_place_found(before, other, 0);
                    if rating_place(before, other, 0) is Some {
                        let p = rating_place(before, other, 0)->0;
                        assert forall|k: int| 0 <= k < p implies (#[trigger] after[k]).id@
                            != other by {
                            assert(after[k] == before[k]);
                        }
                        assert(after[p] == before[p]);
                        lemma_rating_place_is(after, other, 0, p);
                    } else if other == id@ {
                        assert forall|k: int| 0 <= k < before.len() implies (#[trigger] after[k]).id@
                            != other by {
                            assert(after[k] == before[k]);
                        }
                        lemma_rating_place_is(after, other, 0, before.len() as int);
                    } else {
                        assert forall|k: int| 0 <= k < after.len() implies (#[trigger] after[k]).id@
                            != other by {
                            if k < before.len() {
                                assert(after[k] == before[k]);
                            }
                        }
                        lemma_rating_place_none(after, other, 0);
                    }
                }
                assert forall|other: Seq<char>|
                    #[trigger] rating_of(after, other) == if other == id@ {
                        elo as int
                    } else {
                        rating_of(before, other)
                    } by {
                    lemma_rating_place_found(before, other, 0);
                    let p = rating_place(after, other, 0);
                    if rating_place(before, other, 0) is Some {
                        assert(after[p->0] == before[p->0]);
                    }
                }
                assert forall|other: Seq<char>|
                    #[trigger] is_rated(after, other) <==> (is_rated(before, other) || other
                        == id@) by {
                    let p = rating_place(after, other, 0);
                }
                if no_double_ratings(before) {
                    assert forall|j: int, k: int| 0 <= j < k < after.len() implies (#[trigger] after[j]).id@
                        != (#[trigger] after[k]).id@ by {
                        assert(after[j] == before[j]);
                        if k < before.len() {
                            assert(after[k] == before[k]);
                        } else {
                            assert(after[k].id@ == id@);
                            assert(before[j].id@ != id@);
                        }
                    }
                }
            }
        },
    }
}

/// A rating that can still take a full gain or loss without leaving the
/// range of the numbers it is stored in.
pub open spec fn elo_in_range(elo: int) -> bool {
    i64::MIN + K_FACTOR <= elo <= i64::MAX - K_FACTOR
}

/// What the winner gains and the loser loses, in thousandths of an Elo
/// point: the K-factor times the part of the score that was not expected,
/// rounded down.
pub open spec fn elo_gain(expected_winner: u32) -> int {
    (32 * (EXPECTED_ONE - expected_winner)) / 1000
}

/// The gain of the winner for an expected score given in millionths.
pub fn gain_for(expected_winner: u32) -> (gain: i64)
    requires
        expected_winner <= EXPECTED_ONE,
    ensures
        gain == elo_gain(expected_winner),
        0 <= gain <= K_FACTOR,
{
    let rest: i64 = (EXPECTED_ONE - expected_winner) as i64;
    (32 * rest) / 1000
}

/// The difference of ratings that the expected score of the winner is a
/// function of: the rating of `loser_id` minus that of `winner_id`.
pub fn rating_gap(preferences: &Preferences, winner_id: &str, loser_id: &str) -> (gap: i128)
    ensures
        gap == rating_of(preferences.elo_ratings@, loser_id@) - rating_of(
            preferences.elo_ratings@,
            winner_id@,
        ),
{
    let winner = lookup_rating(&preferences.elo_ratings, winner_id);
    let loser = lookup_rating(&preferences.elo_ratings, loser_id);
    loser as i128 - winner as i128
}

/// Moves the ratings after a decision. `expected_winner` is the score that
/// the ratings gave the winner to expect, in millionths. The winner gains
/// the K-factor times the unexpected part of its score, the loser loses the
/// same amount; an idea without a rating starts from 1000 points. What the
/// two gain adds up to zero.
pub fn update_elo(preferences: &mut Preferences, winner_id: &str, loser_id: &str, expected_winner: u32)
    requires
        expected_winner <= EXPECTED_ONE,
        elo_in_range(rating_of(old(preferences).elo_ratings@, winner_id@)),
        elo_in_range(rating_of(old(preferences).elo_ratings@, loser_id@)),
    ensures
        final(preferences).comparisons == old(preferences).comparisons,
        forall|other: Seq<char>|
            #[trigger] rating_of(final(preferences).elo_ratings@, other) == if other == loser_id@ {
                rating_of(old(preferences).elo_ratings@, loser_id@) - elo_gain(expected_winner)
            } else if other == winner_id@ {
                rating_of(old(preferences).elo_ratings@, winner_id@) + elo_gain(expected_winner)
            } else {
                rating_of(old(preferences).elo_ratings@, other)
            },
        forall|other: Seq<char>|
            #[trigger] is_rated(final(preferences).elo_ratings@, other) <==> (is_rated(
                old(preferences).elo_ratings@,
                other,
            ) || other == winner_id@ || other == loser_id@),
        winner_id@ != loser_id@ ==> (rating_of(final(preferences).elo_ratings@, winner_id@)
            - rating_of(old(preferences).elo_ratings@, winner_id@)) + (rating_of(
            final(preferences).elo_ratings@,
            loser_id@,
        ) - rating_of(old(preferences).elo_ratings@, loser_id@)) == 0,
        no_double_ratings(old(preferences).elo_ratings@) ==> no_double_ratings(
            final(preferences).elo_ratings@,
        ),
{
    let gain = gain_for(expected_winner);
    let winner_elo = lookup_rating(&preferences.elo_ratings, winner_id);
    let loser_elo = lookup_rating(&preferences.elo_ratings, loser_id);
    let ghost before = preferences.elo_ratings@;
    set_rating(&mut preferences.elo_ratings, winner_id, winner_elo + gain);
    let ghost between = preferences.elo_ratings@;
    set_rating(&mut preferences.elo_ratings, loser_id, loser_elo - gain);
    proof {
        let after = preferences.elo_ratings@;
        assert forall|other: Seq<char>|
            #[trigger] rating_of(after, other) == if other == loser_id@ {
                rating_of(before, loser_id@) - elo_gain(expected_winner)
            } else if other == winner_id@ {
                rating_of(before, winner_id@) + elo_gain(expected_winner)
            } else {
                rating_of(before, other)
            } by {
            assert(rating_of(between, other) == if other == winner_id@ {
                (winner_elo + gain) as int
            } else {
                rating_of(before, other)
            });
        }
        assert forall|other: Seq<char>|
            #[trigger] is_rated(after, other) <==> (is_rated(before, other) || other == winner_id@
                || other == loser_id@) by {
            assert(is_rated(between, other) <==> (is_rated(before, other) || other == winner_id@));
        }
        assert(rating_of(after, winner_id@) == if winner_id@ == loser_id@ {
            rating_of(before, loser_id@) - elo_gain(expected_winner)
        } else {
            rating_of(before, winner_id@) + elo_gain(expected_winner)
        });
        assert(rating_of(after, loser_id@) == rating_of(before, loser_id@) - elo_gain(
            expected_winner,
        ));
    }
}

/// The pair of `a` and `b` is among the pairs `compared`, in this order or
/// the other.
pub open spec fn is_compared(compared: Seq<(String, String)>, a: Seq<char>, b: Seq<char>) -> bool {
    exists|k: int| 0 <= k < compared.len() && pair_matches(#[trigger] compared[k], a, b)
}

/// The stored pair holds `a` and `b`, in this order or the other.
pub open spec fn pair_matches(pair: (String, String), a: Seq<char>, b: Seq<char>) -> bool {
    (pair.0@ == a && pair.1@ == b) || (pair.0@ == b && pair.1@ == a)
}

/// How far apart the ratings of `a` and `b` are.
pub open spec fn elo_distance(ratings: Seq<Rating>, a: Seq<char>, b: Seq<char>) -> int {
    let gap = rating_of(ratings, a) - rating_of(ratings, b);
    if gap < 0 {
        -gap
    } else {
        gap
    }
}

/// The places `i` and `j` make a pair that has not been compared yet.
pub open spec fn is_open_pair(ids: Seq<String>, compared: Seq<(String, String)>, i: int, j: int) -> bool {
    0 <= i < j < ids.len() && !is_compared(compared, ids[i]@, ids[j]@)
}

/// The pair `(i, j)` comes before the pair `(i2, j2)` in the order in which
/// pairs are gone through: by the first place, then by the second.
pub open spec fn pair_before(i: int, j: int, i2: int, j2: int) -> bool {
    i < i2 || (i == i2 && j < j2)
}

/// The distance of the ratings of the ideas at the places `i` and `j`.
pub open spec fn pair_distance(ids: Seq<String>, ratings: Seq<Rating>, i: int, j: int) -> int {
    elo_distance(ratings, ids[i]@, ids[j]@)
}

/// The pair `(i, j)` is the one to compare next: it has not been compared,
/// no open pair has closer ratings, and of the open pairs with ratings as
/// close it is the first.
pub open spec fn is_next_pair(
    ids: Seq<String>,
    ratings: Seq<Rating>,
    compared: Seq<(String, String)>,
    i: int,
    j: int,
) -> bool {
    &&& is_open_pair(ids, compared, i, j)
    &&& forall|i2: int, j2: int|
        #[trigger] is_open_pair(ids, compared, i2, j2) ==> pair_distance(ids, ratings, i2, j2)
            >= pair_distance(ids, ratings, i, j) && (pair_before(i2, j2, i, j) ==> pair_distance(
            ids,
            ratings,
            i2,
            j2,
        ) > pair_distance(ids, ratings, i, j))
}

/// No pair is left to compare.
pub open spec fn all_pairs_compared(ids: Seq<String>, compared: Seq<(String, String)>) -> bool {
    forall|i: int, j: int| !#[trigger] is_open_pair(ids, compared, i, j)
}

/// True when the pair of `a` and `b` is among the pairs `compared`, in this
/// order or the other.
pub fn was_compared(compared: &Vec<(String, String)>, a: &str, b: &str) -> (found: bool)
    ensures
        found == is_compared(compared@, a@, b@),
{
    let mut k: usize = 0;
    while k < compared.len()
        invariant
            k <= compared.len(),
            forall|m: int| 0 <= m < k ==> !pair_matches(#[trigger] compared@[m], a@, b@),
        decreases compared.len() - k,
    {
        let first = compared[k].0.as_str();
        let second = compared[k].1.as_str();
        if (same_text(first, a) && same_text(second, b)) || (same_text(first, b) && same_text(
            second,
            a,
        )) {
            assert(pair_matches(compared@[k as int], a@, b@));
            return true;
        }
        k += 1;
    }
    false
}

/// The distance of the ratings of `a` and `b`.
fn distance(ratings: &Vec<Rating>, a: &str, b: &str) -> (gap: i128)
    ensures
        gap == elo_distance(ratings@, a@, b@),
{
    let gap: i128 = lookup_rating(ratings, a) as i128 - lookup_rating(ratings, b) as i128;
    if gap < 0 {
        -gap
    } else {
        gap
    }
}

/// The pair is as good a choice as can be made among the pairs gone through
/// so far: those before `(i, j)`.
spec fn best_so_far(
    ids: Seq<String>,
    ratings: Seq<Rating>,
    compared: Seq<(String, String)>,
    best: Option<(usize, usize)>,
    i: int,
    j: int,
) -> bool {
    &&& best is Some ==> is_open_pair(ids, compared, best.unwrap().0 as int, best.unwrap().1 as int)
        && pair_before(best.unwrap().0 as int, best.unwrap().1 as int, i, j)
    &&& forall|i2: int, j2: int|
        #[trigger] is_open_pair(ids, compared, i2, j2) && pair_before(i2, j2, i, j) ==> best
            is Some && pair_distance(ids, ratings, i2, j2) >= pair_distance(
            ids,
            ratings,
            best.unwrap().0 as int,
            best.unwrap().1 as int,
        ) && (pair_before(i2, j2, best.unwrap().0 as int, best.unwrap().1 as int) ==> pair_distance(
            ids,
            ratings,
            i2,
            j2,
        ) > pair_distance(ids, ratings, best.unwrap().0 as int, best.unwrap().1 as int))
}

/// The places of the pair to compare next: among the pairs not compared
/// yet, the one whose ratings are closest, and of several as close the first
/// in the order of places. None where every pair has been compared.
pub fn next_pair_positions(
    ids: &Vec<String>,
    ratings: &Vec<Rating>,
    compared: &Vec<(String, String)>,
) -> (next: Option<(usize, usize)>)
    ensures
        next is None <==> all_pairs_compared(ids@, compared@),
        next is Some ==> is_next_pair(ids@, ratings@, compared@, next.unwrap().0 as int, next.unwrap().1 as int),
{
    let mut best: Option<(usize, usize)> = None;
    let mut smallest: i128 = 0;
    let mut i: usize = 0;
    while i < ids.len()
        invariant
            i <= ids.len(),
            best_so_far(ids@, ratings@, compared@, best, i as int, 0),
            best is Some ==> smallest == pair_distance(
                ids@,
                ratings@,
                best.unwrap().0 as int,
                best.unwrap().1 as int,
            ),
        decreases ids.len() - i,
    {
        let mut j: usize = i + 1;
        while j < ids.len()
            invariant
                i < ids.len(),
                i < j <= ids.len(),
                best_so_far(ids@, ratings@, compared@, best, i as int, j as int),
                best is Some ==> smallest == pair_distance(
                    ids@,
                    ratings@,
                    best.unwrap().0 as int,
                    best.unwrap().1 as int,
                ),
            decreases ids.len() - j,
        {
            let a = ids[i].as_str();
            let b = ids[j].as_str();
            if !was_compared(compared, a, b) {
                let gap = distance(ratings, a, b);
                let closer = match best {
                    None => true,
                    Some(_) => gap < smallest,
                };
                if closer {
                    best = Some((i, j));
                    smallest = gap;
                }
            }
            j += 1;
        }
        i += 1;
    }
    proof {
        if best is Some {
            assert forall|i2: int, j2: int| #[trigger]
                is_open_pair(ids@, compared@, i2, j2) implies pair_before(
                i2,
                j2,
                ids@.len() as int,
                0,
            ) by {}
        }
    }
    best
}

/// The pair to compare next: among the pairs of `ids` not compared yet, the
/// one whose ratings are closest, and of several as close the first in the
/// order of `ids`. None where every pair has been compared.
pub fn select_next_pair(
    ids: &Vec<String>,
    elo_ratings: &Vec<Rating>,
    compared: &Vec<(String, String)>,
) -> (pair: Option<(String, String)>)
    ensures
        pair is None <==> all_pairs_compared(ids@, compared@),
        pair is Some ==> exists|i: int, j: int|
            #[trigger] is_next_pair(ids@, elo_ratings@, compared@, i, j) && pair.unwrap().0 == ids@[i]
                && pair.unwrap().1 == ids@[j],
        pair is Some ==> !is_compared(compared@, pair.unwrap().0@, pair.unwrap().1@),
{
    match next_pair_positions(ids, elo_ratings, compared) {
        None => None,
        Some((i, j)) => {
            let pair = (ids[i].clone(), ids[j].clone());
            proof {
                assert(is_next_pair(ids@, elo_ratings@, compared@, i as int, j as int) && pair.0
                    == ids@[i as int] && pair.1 == ids@[j as int]);
            }
            Some(pair)
        },
    }
}

/// What the person at the keyboard decided about a pair.
#[derive(Debug, Clone, Copy, PartialEq, Eq, Structural)]
pub enum Choice {
    /// The first idea is the better one.
    PreferA,
    /// The second idea is the better one.
    PreferB,
    /// No decision on this pair.
    Skip,
    /// End the tournament.
    Quit,
    /// Anything else.
    Invalid,
}

/// The choice that an answer stands for: "A", "B", "S" for skip, "Q" for
/// quit; every other answer is invalid.
pub open spec fn choice_of(answer: Seq<char>) -> Choice {
    if answer == "A"@ {
        Choice::PreferA
    } else if answer == "B"@ {
        Choice::PreferB
    } else if answer == "S"@ {
        Choice::Skip
    } else if answer == "Q"@ {
        Choice::Quit
    } else {
        Choice::Invalid
    }
}

/// The choice that a cleaned answer stands for.
pub fn read_choice(answer: &str) -> (choice: Choice)
    ensures
        choice == choice_of(answer@),
{
    if same_text(answer, "A") {
        Choice::PreferA
    } else if same_text(answer, "B") {
        Choice::PreferB
    } else if same_text(answer, "S") {
        Choice::Skip
    } else if same_text(answer, "Q") {
        Choice::Quit
    } else {
        Choice::Invalid
    }
}

/// The choice that a line of input stands for: the line is trimmed and put
/// in upper case, then read.
pub fn parse_choice(input: &str) -> (choice: Choice)
    ensures
        choice == choice_of(uppercased(trimmed(input@))),
{
    let cleaned = to_uppercase(trim(input));
    read_choice(cleaned.as_str())
}

/// The comparison has `a` and `b` as its two ideas, in this order or the
/// other.
pub open spec fn comparison_matches(comparison: Comparison, a: Seq<char>, b: Seq<char>) -> bool {
    &&& comparison.idea_a is Some
    &&& comparison.idea_b is Some
    &&& ((comparison.idea_a->0@ == a && comparison.idea_b->0@ == b) || (comparison.idea_a->0@ == b
        && comparison.idea_b->0@ == a))
}

/// A comparison of `a` and `b` is on record.
pub open spec fn is_recorded(comparisons: Seq<Comparison>, a: Seq<char>, b: Seq<char>) -> bool {
    exists|k: int| 0 <= k < comparisons.len() && comparison_matches(#[trigger] comparisons[k], a, b)
}

/// True when a comparison of `a` and `b` is on record.
pub fn was_recorded(comparisons: &Vec<Comparison>, a: &str, b: &str) -> (found: bool)
    ensures
        found == is_recorded(comparisons@, a@, b@),
{
    let mut k: usize = 0;
    while k < comparisons.len()
        invariant
            k <= comparisons.len(),
            forall|m: int| 0 <= m < k ==> !comparison_matches(#[trigger] comparisons@[m], a@, b@),
        decreases comparisons.len() - k,
    {
        let found = match (&comparisons[k].idea_a, &comparisons[k].idea_b) {
            (Some(first), Some(second)) => (same_text(first.as_str(), a) && same_text(
                second.as_str(),
                b,
            )) || (same_text(first.as_str(), b) && same_text(second.as_str(), a)),
            _ => false,
        };
        if found {
            assert(comparison_matches(comparisons@[k as int], a@, b@));
            return true;
        }
        k += 1;
    }
    false
}

/// The places `i` and `j` make a pair of which no comparison is on record.
pub open spec fn is_unrecorded_pair(ids: Seq<String>, comparisons: Seq<Comparison>, i: int, j: int) -> bool {
    0 <= i < j < ids.len() && !is_recorded(comparisons, ids[i]@, ids[j]@)
}

/// The pair `(i, j)` is the first pair at or behind the pair `(ci, cj)` of
/// which no comparison is on record.
pub open spec fn is_first_unrecorded(
    ids: Seq<String>,
    comparisons: Seq<Comparison>,
    ci: int,
    cj: int,
    i: int,
    j: int,
) -> bool {
    &&& is_unrecorded_pair(ids, comparisons, i, j)
    &&& !pair_before(i, j, ci, cj)
    &&& forall|i2: int, j2: int|
        #[trigger] is_unrecorded_pair(ids, comparisons, i2, j2) && !pair_before(i2, j2, ci, cj)
            ==> !pair_before(i2, j2, i, j)
}

/// No pair at or behind the pair `(ci, cj)` is without a comparison on
/// record.
pub open spec fn none_unrecorded(ids: Seq<String>, comparisons: Seq<Comparison>, ci: int, cj: int) -> bool {
    forall|i2: int, j2: int|
        #[trigger] is_unrecorded_pair(ids, comparisons, i2, j2) ==> pair_before(i2, j2, ci, cj)
}

/// The first pair at or behind `cursor`, in the order of places, of which
/// no comparison is on record.
pub fn next_unrecorded(ids: &Vec<String>, comparisons: &Vec<Comparison>, cursor: (usize, usize)) -> (next:
    Option<(usize, usize)>)
    ensures
        next is None <==> none_unrecorded(ids@, comparisons@, cursor.0 as int, cursor.1 as int),
        next is Some ==> is_first_unrecorded(
            ids@,
            comparisons@,
            cursor.0 as int,
            cursor.1 as int,
            next.unwrap().0 as int,
            next.unwrap().1 as int,
        ),
{
    let n = ids.len();
    let mut i: usize = cursor.0;
    let mut j: usize = if cursor.1 > cursor.0 {
        if cursor.1 <= n {
            cursor.1
        } else {
            n
        }
    } else if cursor.0 < n {
        cursor.0 + 1
    } else {
        n
    };
    while i < n
        invariant
            n == ids@.len(),
            i < n ==> i < j <= n,
            cursor.0 <= i,
            (i == cursor.0 && j >= cursor.1) || i > cursor.0 || j >= n,
            forall|i2: int, j2: int|
                #[trigger] is_unrecorded_pair(ids@, comparisons@, i2, j2) && !pair_before(
                    i2,
                    j2,
                    cursor.0 as int,
                    cursor.1 as int,
                ) ==> !pair_before(i2, j2, i as int, j as int),
        decreases n - i, n - j,
    {
        if j >= n {
            i += 1;
            j = if i < n {
                i + 1
            } else {
                n
            };
        } else {
            if !was_recorded(comparisons, ids[i].as_str(), ids[j].as_str()) {
                assert(is_unrecorded_pair(ids@, comparisons@, i as int, j as int));
                return Some((i, j));
            }
            j += 1;
        }
    }
    None
}

/// A tournament in progress: the ideas that take part, the preferences as
/// they stand, and how far the tournament has come.
///
/// A pairwise tournament asks for at most `max_comparisons` decisions, each
/// on the open pair with the closest ratings. An exhaustive tournament goes
/// through all pairs in the order of places and asks about each pair of
/// which no comparison is on record.
#[derive(Debug)]
pub struct Tournament {
    /// True for a pairwise tournament, false for an exhaustive one.
    pub pairwise: bool,
    /// The identifiers of the ideas that take part.
    pub ids: Vec<String>,
    pub preferences: Preferences,
    /// Pairwise: the pairs that are not asked about again.
    pub compared: Vec<(String, String)>,
    /// Exhaustive: the first pair of places that has not been gone through.
    pub cursor: (usize, usize),
    /// How many decisions were recorded.
    pub comparison_count: usize,
    /// Pairwise: the cap on the decisions.
    pub max_comparisons: usize,
    /// True once the tournament was ended by the person at the keyboard.
    pub quit: bool,
}

impl Tournament {
    /// `pair` is the pair to ask about next, or none where the tournament is
    /// over: after a quit; pairwise, when the cap is reached or every pair
    /// has been compared; exhaustive, when every pair has been gone through
    /// or is on record.
    pub open spec fn pending_is(self, pair: Option<(usize, usize)>) -> bool {
        if self.quit {
            pair is None
        } else if self.pairwise {
            if self.comparison_count >= self.max_comparisons {
                pair is None
            } else {
                &&& pair is None <==> all_pairs_compared(self.ids@, self.compared@)
                &&& pair is Some ==> is_next_pair(
                    self.ids@,
                    self.preferences.elo_ratings@,
                    self.compared@,
                    pair.unwrap().0 as int,
                    pair.unwrap().1 as int,
                )
            }
        } else {
            &&& pair is None <==> none_unrecorded(
                self.ids@,
                self.preferences.comparisons@,
                self.cursor.0 as int,
                self.cursor.1 as int,
            )
            &&& pair is Some ==> is_first_unrecorded(
                self.ids@,
                self.preferences.comparisons@,
                self.cursor.0 as int,
                self.cursor.1 as int,
                pair.unwrap().0 as int,
                pair.unwrap().1 as int,
            )
        }
    }

    /// The places of the pair to ask about next; none where the tournament
    /// is over.
    pub fn pending(&self) -> (pair: Option<(usize, usize)>)
        ensures
            self.pending_is(pair),
            pair is Some ==> pair.unwrap().0 < pair.unwrap().1 < self.ids@.len(),
    {
        if self.quit {
            None
        } else if self.pairwise {
            if self.comparison_count >= self.max_comparisons {
                None
            } else {
                next_pair_positions(&self.ids, &self.preferences.elo_ratings, &self.compared)
            }
        } else {
            next_unrecorded(&self.ids, &self.preferences.comparisons, self.cursor)
        }
    }
}

/// The identifiers of the records at `positions`, "unknown" for a record
/// without one.
pub open spec fn ids_of(records: Seq<IdeaRecord>, positions: Seq<usize>) -> Seq<Seq<char>> {
    Seq::new(positions.len(), |k: int| records[positions[k] as int].id_text())
}

/// `id` is one of the identifiers `ids`.
pub open spec fn is_listed(ids: Seq<String>, id: Seq<char>) -> bool {
    exists|k: int| 0 <= k < ids.len() && (#[trigger] ids[k])@ == id
}

/// The pairs that a pairwise tournament does not ask about again because
/// they are on record: the two ideas of each comparison, a missing one read
/// as the empty identifier.
pub open spec fn pairs_on_record(comparisons: Seq<Comparison>) -> Seq<(Seq<char>, Seq<char>)> {
    Seq::new(
        comparisons.len(),
        |k: int|
            (text_or(comparisons[k].idea_a, Seq::empty()), text_or(comparisons[k].idea_b, Seq::empty())),
    )
}

/// The texts of a list of pairs.
pub open spec fn pair_texts(pairs: Seq<(String, String)>) -> Seq<(Seq<char>, Seq<char>)> {
    Seq::new(pairs.len(), |k: int| (pairs[k].0@, pairs[k].1@))
}

/// Gives every identifier of `ids` that has no rating the default rating.
/// The rating of no identifier changes by that.
pub fn ensure_ratings(ratings: &mut Vec<Rating>, ids: &Vec<String>)
    ensures
        forall|id: Seq<char>|
            #[trigger] rating_of(final(ratings)@, id) == rating_of(old(ratings)@, id),
        forall|id: Seq<char>|
            #[trigger] is_rated(final(ratings)@, id) <==> (is_rated(old(ratings)@, id) || is_listed(
                ids@,
                id,
            )),
        no_double_ratings(old(ratings)@) ==> no_double_ratings(final(ratings)@),
{
    let mut k: usize = 0;
    while k < ids.len()
        invariant
            k <= ids.len(),
            no_double_ratings(old(ratings)@) ==> no_double_ratings(ratings@),
            forall|id: Seq<char>| #[trigger] rating_of(ratings@, id) == rating_of(old(ratings)@, id),
            forall|id: Seq<char>|
                #[trigger] is_rated(ratings@, id) <==> (is_rated(old(ratings)@, id) || is_listed(
                    ids@.take(k as int),
                    id,
                )),
        decreases ids.len() - k,
    {
        let ghost held = ratings@;
        let id = ids[k].as_str();
        if find_rating(ratings, id).is_none() {
            set_rating(ratings, id, DEFAULT_ELO);
        }
        proof {
            let now = ratings@;
            assert forall|other: Seq<char>|
                #[trigger] is_rated(now, other) <==> (is_rated(old(ratings)@, other) || is_listed(
                    ids@.take(k + 1),
                    other,
                )) by {
                assert(is_rated(held, other) <==> (is_rated(old(ratings)@, other) || is_listed(
                    ids@.take(k as int),
                    other,
                )));
                if is_listed(ids@.take(k + 1), other) {
                    let m = choose|m: int|
                        0 <= m < ids@.take(k + 1).len() && (#[trigger] ids@.take(k + 1)[m])@ == other;
                    if m < k {
                        assert(ids@.take(k as int)[m]@ == other);
                    }
                }
                if is_listed(ids@.take(k as int), other) {
                    let m = choose|m: int|
                        0 <= m < ids@.take(k as int).len() && (#[trigger] ids@.take(k as int)[m])@
                            == other;
                    assert(ids@.take(k + 1)[m]@ == other);
                }
                if other == id@ {
                    assert(ids@.take(k + 1)[k as int]@ == other);
                }
            }
            assert forall|other: Seq<char>| #[trigger]
                rating_of(now, other) == rating_of(old(ratings)@, other) by {
                assert(rating_of(held, other) == rating_of(old(ratings)@, other));
            }
        }
        k += 1;
    }
    proof {
        assert(ids@.take(k as int) == ids@);
    }
}

impl Tournament {
    /// Opens a tournament over the records of a run, on top of the
    /// preferences learned so far. The active, scored records take part;
    /// each of them that has no rating yet gets the default rating. Fails
    /// where fewer than two records can take part.
    pub fn start(records: &Vec<IdeaRecord>, preferences: Preferences, pairwise: bool) -> (result:
        Result<Tournament, TournamentError>)
        ensures
            eligible_positions(records@, records@.len()).len() < 2 <==> result is Err,
            result is Err ==> result == Err::<Tournament, TournamentError>(
                TournamentError::TooFewEligible {
                    eligible: eligible_positions(records@, records@.len()).len() as usize,
                    active: active_records(records@, records@.len()) as usize,
                },
            ),
            result is Ok ==> {
                let opened = result->Ok_0;
                &&& opened.pairwise == pairwise
                &&& crate::discovery::texts(opened.ids@) == ids_of(
                    records@,
                    eligible_positions(records@, records@.len()),
                )
                &&& opened.preferences.comparisons == preferences.comparisons
                &&& forall|id: Seq<char>|
                    #[trigger] rating_of(opened.preferences.elo_ratings@, id) == rating_of(
                        preferences.elo_ratings@,
                        id,
                    )
                &&& forall|id: Seq<char>|
                    #[trigger] is_rated(opened.preferences.elo_ratings@, id) <==> (is_rated(
                        preferences.elo_ratings@,
                        id,
                    ) || is_listed(opened.ids@, id))
                &&& no_double_ratings(preferences.elo_ratings@) ==> no_double_ratings(
                    opened.preferences.elo_ratings@,
                )
                &&& pair_texts(opened.compared@) == if pairwise {
                    pairs_on_record(preferences.comparisons@)
                } else {
                    Seq::empty()
                }
                &&& opened.cursor == (0usize, 1usize)
                &&& opened.comparison_count == 0
                &&& opened.max_comparisons == if 2 * opened.ids@.len() <= usize::MAX {
                    2 * opened.ids@.len()
                } else {
                    usize::MAX as nat
                }
                &&& !opened.quit
            },
    {
        let eligibility = match eligible_ideas(records) {
            Ok(found) => found,
            Err(error) => {
                return Err(error);
            },
        };
        let ghost positions = eligibility.eligible@;
        let mut ids: Vec<String> = Vec::new();
        let mut k: usize = 0;
        while k < eligibility.eligible.len()
            invariant
                k <= eligibility.eligible.len(),
                eligibility.eligible@ == positions,
                forall|m: int| 0 <= m < positions.len() ==> (#[trigger] positions[m]) < records@.len(),
                crate::discovery::texts(ids@) == ids_of(records@, positions).take(k as int),
            decreases eligibility.eligible.len() - k,
        {
            let ghost held = crate::discovery::texts(ids@);
            let id = record_id(&records[eligibility.eligible[k]]);
            ids.push(id);
            proof {
                assert(crate::discovery::texts(ids@) =~= held.push(id@));
                assert(ids_of(records@, positions).take(k + 1) =~= ids_of(records@, positions).take(
                    k as int,
                ).push(id@));
            }
            k += 1;
        }
        proof {
            assert(ids_of(records@, positions).take(k as int) == ids_of(records@, positions));
        }
        let mut preferences = preferences;
        ensure_ratings(&mut preferences.elo_ratings, &ids);
        let mut compared: Vec<(String, String)> = Vec::new();
        if pairwise {
            let mut c: usize = 0;
            while c < preferences.comparisons.len()
                invariant
                    c <= preferences.comparisons.len(),
                    pair_texts(compared@) == pairs_on_record(preferences.comparisons@).take(c as int),
                decreases preferences.comparisons.len() - c,
            {
                proof {
                    reveal_strlit("");
                    assert(""@ =~= Seq::<char>::empty());
                }
                let ghost held = pair_texts(compared@);
                let first = text_or_else(&preferences.comparisons[c].idea_a, "");
                let second = text_or_else(&preferences.comparisons[c].idea_b, "");
                let ghost pair = (first@, second@);
                compared.push((first, second));
                proof {
                    assert(pair_texts(compared@) =~= held.push(pair));
                    assert(pairs_on_record(preferences.comparisons@).take(c + 1) =~= pairs_on_record(
                        preferences.comparisons@,
                    ).take(c as int).push(pair));
                }
                c += 1;
            }
            proof {
                assert(pairs_on_record(preferences.comparisons@).take(c as int) == pairs_on_record(
                    preferences.comparisons@,
                ));
            }
        } else {
            proof {
                assert(pair_texts(compared@) =~= Seq::empty());
            }
        }
        let max_comparisons = if ids.len() <= usize::MAX / 2 {
            calculate_pairwise_limit(ids.len())
        } else {
            usize::MAX
        };
        Ok(
            Tournament {
                pairwise,
                ids,
                preferences,
                compared,
                cursor: (0, 1),
                comparison_count: 0,
                max_comparisons,
                quit: false,
            },
        )
    }

    /// A preference can be recorded on the pair at the places `i` and `j`:
    /// the ratings of the two ideas leave room for a full gain or loss, and
    /// the count of decisions can still be raised.
    pub open spec fn can_decide(self, i: int, j: int) -> bool {
        &&& self.comparison_count < usize::MAX
        &&& elo_in_range(rating_of(self.preferences.elo_ratings@, self.ids@[i]@))
        &&& elo_in_range(rating_of(self.preferences.elo_ratings@, self.ids@[j]@))
    }

    /// True when a preference can be recorded on the pair: the ratings of
    /// its two ideas leave room for a full gain or loss, and the count of
    /// decisions can still be raised.
    pub fn check_pair(&self, pair: (usize, usize)) -> (ok: bool)
        requires
            pair.0 < self.ids@.len(),
            pair.1 < self.ids@.len(),
        ensures
            ok == self.can_decide(pair.0 as int, pair.1 as int),
    {
        let first = lookup_rating(&self.preferences.elo_ratings, self.ids[pair.0].as_str());
        let second = lookup_rating(&self.preferences.elo_ratings, self.ids[pair.1].as_str());
        self.comparison_count < usize::MAX && first >= i64::MIN + K_FACTOR && first <= i64::MAX
            - K_FACTOR && second >= i64::MIN + K_FACTOR && second <= i64::MAX - K_FACTOR
    }

    /// `after` is this tournament with the decision recorded that `winner`
    /// beat `loser` in the comparison of the ideas at the places `i` and
    /// `j`: the comparison is added to the record, the ratings of the two
    /// move by the gain, the count of decisions is one higher, and the pair
    /// is not asked about again.
    pub open spec fn is_decided(
        self,
        after: Tournament,
        i: int,
        j: int,
        winner: String,
        loser: String,
        expected_winner: u32,
    ) -> bool {
        let before = self.preferences.elo_ratings@;
        &&& after.preferences.comparisons@ == self.preferences.comparisons@.push(
            Comparison {
                idea_a: Some(self.ids@[i]),
                idea_b: Some(self.ids@[j]),
                winner: Some(winner),
            },
        )
        &&& forall|other: Seq<char>|
            #[trigger] rating_of(after.preferences.elo_ratings@, other) == if other == loser@ {
                rating_of(before, loser@) - elo_gain(expected_winner)
            } else if other == winner@ {
                rating_of(before, winner@) + elo_gain(expected_winner)
            } else {
                rating_of(before, other)
            }
        &&& after.comparison_count == self.comparison_count + 1
        &&& after.quit == self.quit
        &&& self.is_passed(after, i, j)
    }

    /// `after` has the pair at the places `i` and `j` behind it: pairwise,
    /// the pair is marked as compared; exhaustive, the cursor stands on the
    /// pair that follows.
    pub open spec fn is_passed(self, after: Tournament, i: int, j: int) -> bool {
        if self.pairwise {
            after.compared@ == self.compared@.push((self.ids@[i], self.ids@[j])) && after.cursor
                == self.cursor
        } else {
            after.compared@ == self.compared@ && after.cursor == (i as usize, (j + 1) as usize)
        }
    }

    /// `after` is this tournament after the answer `choice` to the question
    /// about the ideas at the places `i` and `j`, and `persist` tells
    /// whether the preferences are to be stored now.
    ///
    /// A preference is recorded and kept. A skip passes the pair and is
    /// kept. A quit ends the tournament and keeps nothing new. An invalid
    /// answer changes nothing in a pairwise tournament, so that the pair is
    /// asked about again; in an exhaustive one it passes the pair.
    pub open spec fn is_answered(
        self,
        after: Tournament,
        i: int,
        j: int,
        choice: Choice,
        expected_winner: u32,
        persist: bool,
    ) -> bool {
        &&& after.pairwise == self.pairwise
        &&& after.ids == self.ids
        &&& after.max_comparisons == self.max_comparisons
        &&& match choice {
            Choice::PreferA => persist && self.is_decided(
                after,
                i,
                j,
                self.ids@[i],
                self.ids@[j],
                expected_winner,
            ),
            Choice::PreferB => persist && self.is_decided(
                after,
                i,
                j,
                self.ids@[j],
                self.ids@[i],
                expected_winner,
            ),
            Choice::Skip => persist && after.preferences == self.preferences
                && after.comparison_count == self.comparison_count && after.quit == self.quit
                && self.is_passed(after, i, j),
            Choice::Invalid => after.preferences == self.preferences && after.comparison_count
                == self.comparison_count && after.quit == self.quit && if self.pairwise {
                !persist && after.compared@ == self.compared@ && after.cursor == self.cursor
            } else {
                persist && self.is_passed(after, i, j)
            },
            Choice::Quit => !persist && after.preferences == self.preferences
                && after.comparison_count == self.comparison_count && after.quit
                && after.compared@ == self.compared@ && after.cursor == self.cursor,
        }
    }

    /// Puts the pair at the places `i` and `j` behind the tournament.
    fn pass(&mut self, i: usize, j: usize)
        requires
            i < j < old(self).ids@.len(),
        ensures
            old(self).is_passed(*final(self), i as int, j as int),
            final(self).pairwise == old(self).pairwise,
            final(self).ids == old(self).ids,
            final(self).max_comparisons == old(self).max_comparisons,
            final(self).preferences == old(self).preferences,
            final(self).comparison_count == old(self).comparison_count,
            final(self).quit == old(self).quit,
    {
        if self.pairwise {
            let pair = (self.ids[i].clone(), self.ids[j].clone());
            self.compared.push(pair);
        } else {
            let count = self.ids.len();
            assert(j < count);
            self.cursor = (i, j + 1);
        }
    }

    /// Records the decision on the pair at the places `i` and `j`.
    fn decide(&mut self, i: usize, j: usize, first_wins: bool, expected_winner: u32)
        requires
            i < j < old(self).ids@.len(),
            expected_winner <= EXPECTED_ONE,
            old(self).can_decide(i as int, j as int),
        ensures
            old(self).is_decided(
                *final(self),
                i as int,
                j as int,
                if first_wins {
                    old(self).ids@[i as int]
                } else {
                    old(self).ids@[j as int]
                },
                if first_wins {
                    old(self).ids@[j as int]
                } else {
                    old(self).ids@[i as int]
                },
                expected_winner,
            ),
            final(self).pairwise == old(self).pairwise,
            final(self).ids == old(self).ids,
            final(self).max_comparisons == old(self).max_comparisons,
            no_double_ratings(old(self).preferences.elo_ratings@) ==> no_double_ratings(
                final(self).preferences.elo_ratings@,
            ),
    {
        let a = self.ids[i].clone();
        let b = self.ids[j].clone();
        let winner = if first_wins {
            a.clone()
        } else {
            b.clone()
        };
        self.pass(i, j);
        self.preferences.comparisons.push(
            Comparison { idea_a: Some(a.clone()), idea_b: Some(b.clone()), winner: Some(winner) },
        );
        if first_wins {
            update_elo(&mut self.preferences, a.as_str(), b.as_str(), expected_winner);
        } else {
            update_elo(&mut self.preferences, b.as_str(), a.as_str(), expected_winner);
        }
        self.comparison_count = self.comparison_count + 1;
    }

    /// Takes the answer to the question about the ideas at the places `i`
    /// and `j` of `ids`, as `pending` gave them. `expected_winner` is the
    /// score that the ratings gave the preferred idea to expect, in
    /// millionths; it is read only where the answer is a preference, and
    /// only then must it be a score and must there be room to record the
    /// decision. Returns whether the preferences are to be stored now.
    pub fn answer(&mut self, pair: (usize, usize), choice: Choice, expected_winner: u32) -> (persist:
        bool)
        requires
            pair.0 < pair.1 < old(self).ids@.len(),
            choice == Choice::PreferA || choice == Choice::PreferB ==> expected_winner
                <= EXPECTED_ONE && old(self).can_decide(pair.0 as int, pair.1 as int),
        ensures
            old(self).is_answered(
                *final(self),
                pair.0 as int,
                pair.1 as int,
                choice,
                expected_winner,
                persist,
            ),
            no_double_ratings(old(self).preferences.elo_ratings@) ==> no_double_ratings(
                final(self).preferences.elo_ratings@,
            ),
    {
        let (i, j) = pair;
        match choice {
            Choice::PreferA => {
                self.decide(i, j, true, expected_winner);
                true
            },
            Choice::PreferB => {
                self.decide(i, j, false, expected_winner);
                true
            },
            Choice::Skip => {
                self.pass(i, j);
                true
            },
            Choice::Invalid => {
                if self.pairwise {
                    false
                } else {
                    self.pass(i, j);
                    true
                }
            },
            Choice::Quit => {
                self.quit = true;
                false
            },
        }
    }
}

/// A pairwise tournament does not come back to a pair: once a preference or
/// a skip was the answer, the pair is closed.
pub proof fn lemma_answered_pair_is_closed(
    before: Tournament,
    after: Tournament,
    i: int,
    j: int,
    choice: Choice,
    expected_winner: u32,
    persist: bool,
)
    requires
        before.pairwise,
        0 <= i < j < before.ids@.len(),
        before.is_answered(after, i, j, choice, expected_winner, persist),
        choice == Choice::PreferA || choice == Choice::PreferB || choice == Choice::Skip,
    ensures
        is_compared(after.compared@, before.ids@[i]@, before.ids@[j]@),
        !is_open_pair(after.ids@, after.compared@, i, j),
{
    let last = after.compared@.len() - 1;
    assert(after.compared@ == before.compared@.push((before.ids@[i], before.ids@[j])));
    assert(pair_matches(after.compared@[last], before.ids@[i]@, before.ids@[j]@));
}

/// The overall scores of the records at `positions`, as ranking keys; a
/// record without one counts as zero.
pub open spec fn overall_keys(records: Seq<IdeaRecord>, positions: Seq<usize>) -> Seq<i128> {
    Seq::new(
        positions.len(),
        |k: int|
            match records[positions[k] as int].overall_score {
                Some(score) => score as i128,
                None => 0,
            },
    )
}

/// The ranking of an automatic tournament: the records at `positions` by
/// overall score, highest first; records with equal scores keep their order.
pub fn rank_by_overall(records: &Vec<IdeaRecord>, positions: &Vec<usize>) -> (ranked: Vec<usize>)
    requires
        forall|k: int| 0 <= k < positions@.len() ==> (#[trigger] positions@[k]) < records@.len(),
    ensures
        ranked@ == arranged(positions@, ranking(overall_keys(records@, positions@))),
        ranked@.len() == positions@.len(),
{
    let mut keys: Vec<i128> = Vec::new();
    let mut k: usize = 0;
    while k < positions.len()
        invariant
            k <= positions.len(),
            forall|m: int| 0 <= m < positions@.len() ==> (#[trigger] positions@[m]) < records@.len(),
            keys@ == overall_keys(records@, positions@).take(k as int),
        decreases positions.len() - k,
    {
        let key: i128 = match records[positions[k]].overall_score {
            Some(score) => score as i128,
            None => 0,
        };
        keys.push(key);
        proof {
            assert(keys@ =~= overall_keys(records@, positions@).take(k + 1));
        }
        k += 1;
    }
    proof {
        assert(overall_keys(records@, positions@).take(k as int) == overall_keys(
            records@,
            positions@,
        ));
    }
    rank_candidates(positions, &keys)
}

/// The places, among the first `n` ratings, of those that are for one of
/// the identifiers `ids`.
pub open spec fn rated_positions(ratings: Seq<Rating>, ids: Seq<String>, n: nat) -> Seq<usize>
    decreases n,
{
    if n == 0 {
        Seq::empty()
    } else if is_listed(ids, ratings[n - 1].id@) {
        rated_positions(ratings, ids, (n - 1) as nat).push((n - 1) as usize)
    } else {
        rated_positions(ratings, ids, (n - 1) as nat)
    }
}

/// The ratings at `positions`, as ranking keys.
pub open spec fn elo_keys(ratings: Seq<Rating>, positions: Seq<usize>) -> Seq<i128> {
    Seq::new(positions.len(), |k: int| ratings[positions[k] as int].elo as i128)
}

/// True when `id` is one of the identifiers `ids`.
pub fn is_one_of(ids: &Vec<String>, id: &str) -> (listed: bool)
    ensures
        listed == is_listed(ids@, id@),
{
    let mut k: usize = 0;
    while k < ids.len()
        invariant
            k <= ids.len(),
            forall|m: int| 0 <= m < k ==> (#[trigger] ids@[m])@ != id@,
        decreases ids.len() - k,
    {
        if same_text(ids[k].as_str(), id) {
            return true;
        }
        k += 1;
    }
    false
}

/// The standings: the places of the ratings that are for one of the
/// identifiers `ids`, highest rating first; equal ratings keep their order.
pub fn standings(ratings: &Vec<Rating>, ids: &Vec<String>) -> (ranked: Vec<usize>)
    ensures
        ranked@ == arranged(
            rated_positions(ratings@, ids@, ratings@.len()),
            ranking(elo_keys(ratings@, rated_positions(ratings@, ids@, ratings@.len()))),
        ),
        forall|k: int| 0 <= k < ranked@.len() ==> (#[trigger] ranked@[k]) < ratings@.len(),
{
    let mut positions: Vec<usize> = Vec::new();
    let mut keys: Vec<i128> = Vec::new();
    let mut k: usize = 0;
    while k < ratings.len()
        invariant
            k <= ratings.len(),
            positions@ == rated_positions(ratings@, ids@, k as nat),
            keys@ == elo_keys(ratings@, positions@),
            forall|m: int| 0 <= m < positions@.len() ==> (#[trigger] positions@[m]) < k,
        decreases ratings.len() - k,
    {
        if is_one_of(ids, ratings[k].id.as_str()) {
            positions.push(k);
            keys.push(ratings[k].elo as i128);
            proof {
                assert(keys@ =~= elo_keys(ratings@, positions@));
            }
        }
        k += 1;
    }
    let ranked = rank_candidates(&positions, &keys);
    proof {
        crate::ranking::lemma_ranking_is_stable_descending(keys@, keys@.len());
        let order = ranking(keys@);
        assert forall|m: int| 0 <= m < ranked@.len() implies (#[trigger] ranked@[m])
            < ratings@.len() by {
            assert(order[m] < positions@.len());
            assert(ranked@[m] == positions@[order[m] as int]);
        }
    }
    ranked
}

} // verus!
