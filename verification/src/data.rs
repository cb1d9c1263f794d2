//! The shared data model: ideas, the population state, audit events and the
//! final result of a run.
//!
//! Scores are fixed-point numbers counted in thousandths of a point, so the
//! conventional range 0 to 10 is stored as 0 to 10000. Identifiers are the
//! 128-bit numbers of version 4 UUIDs.

use vstd::prelude::*;

verus! {

/// The top of the conventional score range (10 points), in thousandths.
pub const SCORE_MAX: i32 = 10000;

/// What the text of an identifier is: the 36 characters of the hyphenated
/// lower-case form that the `uuid` crate prints.
pub uninterp spec fn hyphenated_text(id: u128) -> Seq<char>;

/// What the `uuid` crate reads out of a text: the identifier, or nothing where
/// the text is not a UUID in one of the forms the crate accepts.
pub uninterp spec fn parsed_id(text: Seq<char>) -> Option<u128>;

/// `uuid::Uuid::new_v4`, handed on as the UUID's 128-bit number. The value is
/// random, so nothing is claimed of it.
#[verifier::external_body]
pub(crate) fn fresh_id() -> (id: u128) {
    uuid::Uuid::new_v4().as_u128()
}

/// `uuid::Uuid`'s `to_string`, on the UUID with the given 128-bit number
/// (`Uuid::from_u128`). Claims that the text is the hyphenated form, and that
/// the crate's parser reads that form back to the same number.
#[verifier::external_body]
pub(crate) fn id_text(id: u128) -> (text: String)
    ensures
        text@ == hyphenated_text(id),
        parsed_id(text@) == Some(id),
{
    uuid::Uuid::from_u128(id).to_string()
}

/// `uuid::Uuid::parse_str`, with the UUID handed on as its 128-bit number
/// (`Uuid::as_u128`) and the crate's error dropped.
#[verifier::external_body]
pub(crate) fn parse_id(text: &str) -> (id: Option<u128>)
    ensures
        id == parsed_id(text@),
{
    uuid::Uuid::parse_str(text).ok().map(|u| u.as_u128())
}

/// `chrono::Utc::now`, as milliseconds since the Unix epoch
/// (`DateTime::timestamp_millis`). The value is the clock's, so nothing is
/// claimed of it.
#[verifier::external_body]
pub(crate) fn now_millis() -> (ts: i64) {
    chrono::Utc::now().timestamp_millis()
}

/// How an idea came to be.
#[derive(Debug, Clone, Copy, PartialEq, Eq, Structural)]
pub enum Origin {
    Generated,
    Crossover,
    Mutated,
    Refined,
}

/// Whether an idea is still in the running.
#[derive(Debug, Clone, Copy, PartialEq, Eq, Structural)]
pub enum IdeaStatus {
    Active,
    Archived,
}

/// The six free-text facets of an idea.
#[derive(Debug, Clone, PartialEq, Eq)]
pub struct Facets {
    pub audience: String,
    pub jtbd: String,
    pub differentiator: String,
    pub monetization: String,
    pub distribution: String,
    pub risks: String,
}

/// The texts of a `Facets` value.
pub struct FacetsView {
    pub audience: Seq<char>,
    pub jtbd: Seq<char>,
    pub differentiator: Seq<char>,
    pub monetization: Seq<char>,
    pub distribution: Seq<char>,
    pub risks: Seq<char>,
}

impl View for Facets {
    type V = FacetsView;

    /// The six texts.
    open spec fn view(&self) -> FacetsView {
        FacetsView {
            audience: self.audience@,
            jtbd: self.jtbd@,
            differentiator: self.differentiator@,
            monetization: self.monetization@,
            distribution: self.distribution@,
            risks: self.risks@,
        }
    }
}

impl Facets {
    /// A copy with the same six texts.
    pub fn duplicate(&self) -> (copy: Facets)
        ensures
            copy == *self,
    {
        Facets {
            audience: self.audience.clone(),
            jtbd: self.jtbd.clone(),
            differentiator: self.differentiator.clone(),
            monetization: self.monetization.clone(),
            distribution: self.distribution.clone(),
            risks: self.risks.clone(),
        }
    }
}

/// The eight criterion scores, each in thousandths of a point.
#[derive(Debug, Clone, Copy, PartialEq, Eq, Structural)]
pub struct Scores {
    pub feasibility: i32,
    pub speed_to_value: i32,
    pub differentiation: i32,
    pub market_size: i32,
    pub distribution: i32,
    pub moats: i32,
    pub risk: i32,
    pub clarity: i32,
}

impl Scores {
    /// Every criterion is zero.
    pub open spec fn is_zero(self) -> bool {
        &&& self.feasibility == 0
        &&& self.speed_to_value == 0
        &&& self.differentiation == 0
        &&& self.market_size == 0
        &&& self.distribution == 0
        &&& self.moats == 0
        &&& self.risk == 0
        &&& self.clarity == 0
    }
}

impl Default for Scores {
    /// Eight scores of zero.
    fn default() -> (s: Self)
        ensures
            s.is_zero(),
    {
        Scores {
            feasibility: 0,
            speed_to_value: 0,
            differentiation: 0,
            market_size: 0,
            distribution: 0,
            moats: 0,
            risk: 0,
            clarity: 0,
        }
    }
}

/// One idea of the population.
#[derive(Debug, Clone, PartialEq, Eq)]
pub struct Idea {
    pub id: u128,
    pub gen: u32,
    pub origin: Origin,
    pub parents: Vec<u128>,
    pub title: String,
    pub summary: String,
    pub facets: Facets,
    pub scores: Scores,
    pub overall_score: Option<i64>,
    pub judge_notes: Option<String>,
    pub status: IdeaStatus,
}

impl Idea {
    /// The idea is in the running.
    pub open spec fn is_active(self) -> bool {
        self.status == IdeaStatus::Active
    }

    /// The idea is in the running and has an overall score.
    pub open spec fn is_ranked(self) -> bool {
        self.is_active() && self.overall_score is Some
    }

    /// The parent list fits the origin: none for a generated idea, at least
    /// one for every other origin.
    pub open spec fn parents_fit_origin(self) -> bool {
        (self.origin == Origin::Generated) <==> self.parents@.len() == 0
    }

    /// A new, unscored, active idea without parents, under the identifier
    /// `id` and with the given texts.
    pub open spec fn is_fresh(
        self,
        id: u128,
        title: Seq<char>,
        summary: Seq<char>,
        facets: FacetsView,
        gen: u32,
        origin: Origin,
    ) -> bool {
        &&& self.id == id
        &&& self.gen == gen
        &&& self.origin == origin
        &&& self.parents@ == Seq::<u128>::empty()
        &&& self.title@ == title
        &&& self.summary@ == summary
        &&& self.facets@ == facets
        &&& self.scores.is_zero()
        &&& self.overall_score is None
        &&& self.judge_notes is None
        &&& self.status == IdeaStatus::Active
    }

    /// A new idea under the identifier `id`: active, unscored, without
    /// parents.
    pub fn with_id(
        id: u128,
        title: String,
        summary: String,
        facets: Facets,
        gen: u32,
        origin: Origin,
    ) -> (idea: Idea)
        ensures
            idea.is_fresh(id, title@, summary@, facets@, gen, origin),
            idea.title == title,
            idea.summary == summary,
            idea.facets == facets,
    {
        Idea {
            id,
            gen,
            origin,
            parents: Vec::new(),
            title,
            summary,
            facets,
            scores: Scores::default(),
            overall_score: None,
            judge_notes: None,
            status: IdeaStatus::Active,
        }
    }

    /// A new idea under a freshly drawn random identifier. Whatever the
    /// identifier, all the rest is as `with_id` makes it.
    pub fn new(title: String, summary: String, facets: Facets, gen: u32, origin: Origin) -> (idea:
        Idea)
        ensures
            idea.is_fresh(idea.id, title@, summary@, facets@, gen, origin),
            idea.title == title,
            idea.summary == summary,
            idea.facets == facets,
    {
        Idea::with_id(fresh_id(), title, summary, facets, gen, origin)
    }

    /// The same idea with its parent list replaced.
    pub fn with_parents(self, parents: Vec<u128>) -> (idea: Idea)
        ensures
            idea == (Idea { parents, ..self }),
    {
        let mut idea = self;
        idea.parents = parents;
        idea
    }
}

/// The population of a run and its bookkeeping.
#[derive(Debug, Clone)]
pub struct State {
    pub run_id: u128,
    pub iteration: u32,
    pub ideas: Vec<Idea>,
    pub best_idea_id: Option<u128>,
    pub best_score: Option<i64>,
    pub stagnation_counter: u32,
}

impl State {
    /// The ideas of `ideas` that are active, in their order.
    pub open spec fn active_of(ideas: Seq<Idea>) -> Seq<Idea>
        decreases ideas.len(),
    {
        if ideas.len() == 0 {
            Seq::empty()
        } else if ideas.last().is_active() {
            State::active_of(ideas.drop_last()).push(ideas.last())
        } else {
            State::active_of(ideas.drop_last())
        }
    }

    /// The state of a run that has not started: round 0, no ideas, no best.
    pub fn new(run_id: u128) -> (state: State)
        ensures
            state.run_id == run_id,
            state.iteration == 0,
            state.ideas@ == Seq::<Idea>::empty(),
            state.best_idea_id is None,
            state.best_score is None,
            state.stagnation_counter == 0,
    {
        State {
            run_id,
            iteration: 0,
            ideas: Vec::new(),
            best_idea_id: None,
            best_score: None,
            stagnation_counter: 0,
        }
    }

    /// The active ideas, in the order in which they were created.
    pub fn active_ideas(&self) -> (active: Vec<&Idea>)
        ensures
            active@.map_values(|i: &Idea| *i) == State::active_of(self.ideas@),
    {
        let mut active: Vec<&Idea> = Vec::new();
        let mut k: usize = 0;
        while k < self.ideas.len()
            invariant
                k <= self.ideas.len(),
                active@.map_values(|i: &Idea| *i) == State::active_of(self.ideas@.take(k as int)),
            decreases self.ideas.len() - k,
        {
            let idea = &self.ideas[k];
            proof {
                assert(self.ideas@.take(k as int + 1).drop_last() == self.ideas@.take(k as int));
            }
            if idea.status == IdeaStatus::Active {
                let ghost before = active@;
                active.push(idea);
                assert(active@.map_values(|i: &Idea| *i) == before.map_values(|i: &Idea| *i).push(*idea));
            }
            k += 1;
        }
        proof {
            assert(self.ideas@.take(k as int) == self.ideas@);
        }
        active
    }
}

/// The kind of an audit event.
#[derive(Debug, Clone, Copy, PartialEq, Eq, Structural)]
pub enum EventType {
    Generated,
    Scored,
    Selected,
    Crossover,
    Mutated,
    Refined,
    Stopped,
}

/// Why the evolutionary loop stopped.
#[derive(Debug, Clone, Copy, PartialEq, Eq, Structural)]
pub enum StopReason {
    Threshold,
    Stagnation,
    MaxRounds,
}

/// What an audit event carries.
#[derive(Debug, Clone, Copy, PartialEq, Eq, Structural)]
pub enum EventPayload {
    /// How many ideas a phase generated, scored or refined.
    Count { count: usize },
    /// The outcome of a selection.
    Selection { selected: usize, archived: usize, best_score: Option<i64> },
    /// The stop of the loop.
    Stop { reason: StopReason, best_score: Option<i64>, best_id: Option<u128> },
}

/// One entry of the append-only audit log.
#[derive(Debug, Clone, Copy, PartialEq, Eq)]
pub struct Event {
    /// Milliseconds since the Unix epoch at which the event was made.
    pub ts: i64,
    pub iteration: u32,
    pub event_type: EventType,
    pub payload: EventPayload,
}

impl Event {
    /// An event stamped with the current time.
    pub fn new(iteration: u32, event_type: EventType, payload: EventPayload) -> (event: Event)
        ensures
            event.iteration == iteration,
            event.event_type == event_type,
            event.payload == payload,
    {
        Event { ts: now_millis(), iteration, event_type, payload }
    }
}

/// A runner-up of the final ranking.
#[derive(Debug, Clone)]
pub struct RunnerUp {
    pub idea_id: u128,
    pub title: String,
    pub overall_score: i64,
}

/// The winner of the final ranking.
#[derive(Debug, Clone)]
pub struct FinalBest {
    pub idea_id: u128,
    pub title: String,
    pub summary: String,
    pub facets: Facets,
    pub scores: Scores,
    pub overall_score: i64,
    pub why_won: Vec<String>,
}

/// The ranked result of a run.
#[derive(Debug, Clone)]
pub struct FinalResult {
    pub run_id: u128,
    pub best: FinalBest,
    pub runners_up: Vec<RunnerUp>,
}

} // verus!
