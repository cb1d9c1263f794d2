//! The five phases of the pipeline. Each takes the population state and
//! returns the next one; what it asks of the generator and what it does with
//! the answer are functions of their own.

use vstd::prelude::*;
use crate::config::RunConfig;
use crate::config::ScoringWeights;
use crate::data::Event;
use crate::data::EventPayload;
use crate::data::EventType;
use crate::data::FinalBest;
use crate::data::FinalResult;
use crate::data::Idea;
use crate::data::IdeaStatus;
use crate::data::Origin;
use crate::data::RunnerUp;
use crate::data::SCORE_MAX;
use crate::data::State;
use crate::llm::apply_critic_patches;
use crate::llm::apply_patches;
use crate::llm::facets_or;
use crate::llm::fill_facets;
use crate::llm::IdeaDraft;
use crate::llm::LlmError;
use crate::llm::LlmOutput;
use crate::llm::LlmProvider;
use crate::llm::LlmTask;
use crate::llm::parse_generated_ideas;
use crate::llm::text_or;
use crate::llm::text_or_else;
use crate::ranking::arranged;
use crate::ranking::rank_candidates;
use crate::ranking::ranking;
use crate::scoring::calculate_overall_score;
use crate::scoring::contains_id;
use crate::scoring::inverted_risk;
use crate::scoring::is_selection;
use crate::scoring::improved;
use crate::scoring::next_stagnation;
use crate::scoring::overall_score;
use crate::scoring::rank_by_score;
use crate::scoring::score_ranking;
use crate::scoring::ScoringError;
use crate::scoring::select_ideas;
use crate::scoring::update_stagnation;
use crate::storage::join_path;
use crate::storage::Storage;
use crate::storage::StorageError;
use crate::text::join;
use crate::text::one_decimal;
use crate::text::one_decimal_text;
use crate::text::two_decimals;
use crate::text::two_decimals_text;

verus! {

/// What the phases of a run share: the configuration, the store, the
/// generator and the directory of the answer schemas.
pub struct PhaseContext<'a, S: Storage, L: LlmProvider> {
    pub config: &'a RunConfig,
    pub storage: &'a S,
    pub llm: &'a L,
    pub schema_dir: &'a str,
}

/// Why a phase failed.
#[derive(Debug, Clone, PartialEq, Eq)]
pub enum PhaseError {
    /// The generator failed, or its answer could not be used.
    Llm(LlmError),
    /// The store failed.
    Storage(StorageError),
    /// A score could not be computed.
    Scoring(ScoringError),
    /// No active idea has an overall score, so there is nothing to rank.
    NoActiveIdeas,
}

/// The failure is one that a collaborator of the run causes: the generator,
/// by failing or by an answer that cannot be used, or the store.
pub open spec fn is_collaborator_failure(error: PhaseError) -> bool {
    error is Llm || error is Storage
}

/// The failure is one that a phase of a round can end in: a failure that a
/// collaborator causes, or the failure of the scoring, which comes only under
/// weights that are all zero.
pub open spec fn is_round_failure(error: PhaseError, weights: ScoringWeights) -> bool {
    is_collaborator_failure(error) || (error == PhaseError::Scoring(
        ScoringError::ZeroTotalWeight,
    ) && weights.total() == 0)
}

/// A phase of the pipeline.
pub trait Phase: Send + Sync {
    /// The states that the phase can be run on.
    spec fn accepts(&self, state: State) -> bool;

    /// The name of the phase.
    fn name(&self) -> &str;

    /// Runs the phase on `state` and returns the state it leaves.
    fn run<S: Storage, L: LlmProvider>(&self, state: State, ctx: &PhaseContext<S, L>) -> Result<
        State,
        PhaseError,
    >
        requires
            self.accepts(state),
    ;
}

/// `next` is `state` with nothing changed but the list of ideas.
pub open spec fn same_bookkeeping(next: State, state: State) -> bool {
    &&& next.run_id == state.run_id
    &&& next.iteration == state.iteration
    &&& next.best_idea_id == state.best_idea_id
    &&& next.best_score == state.best_score
    &&& next.stagnation_counter == state.stagnation_counter
}

/// How many of the ideas are active.
pub open spec fn active_count(ideas: Seq<Idea>) -> nat {
    State::active_of(ideas).len()
}

/// How many ideas the population is short of its size.
pub open spec fn deficit(ideas: Seq<Idea>, population_size: u32) -> nat {
    if population_size > active_count(ideas) {
        (population_size - active_count(ideas)) as nat
    } else {
        0
    }
}

/// How many of the ideas are active.
pub fn count_active(ideas: &Vec<Idea>) -> (count: usize)
    ensures
        count == active_count(ideas@),
{
    let mut count: usize = 0;
    let mut k: usize = 0;
    while k < ideas.len()
        invariant
            k <= ideas.len(),
            count == active_count(ideas@.take(k as int)),
            count <= k,
        decreases ideas.len() - k,
    {
        proof {
            assert(ideas@.take(k + 1).drop_last() == ideas@.take(k as int));
        }
        if ideas[k].status == IdeaStatus::Active {
            count += 1;
        }
        k += 1;
    }
    proof {
        assert(ideas@.take(k as int) == ideas@);
    }
    count
}

/// Passes a failure of the store on as a failure of the phase.
fn stored(outcome: Result<(), StorageError>) -> (result: Result<(), PhaseError>)
    ensures
        outcome is Ok <==> result is Ok,
        outcome is Err ==> result == Err::<(), PhaseError>(PhaseError::Storage(outcome->Err_0)),
{
    match outcome {
        Ok(()) => Ok(()),
        Err(error) => Err(PhaseError::Storage(error)),
    }
}

/// Tops the population up with new ideas.
pub struct GeneratePhase;

/// The idea is one that the generate phase of round `gen` adds: generated,
/// active, unscored and without parents.
pub open spec fn is_newly_generated(idea: Idea, gen: u32) -> bool {
    idea.is_fresh(idea.id, idea.title@, idea.summary@, idea.facets@, gen, Origin::Generated)
}

/// `next` is `state` after a generate phase: the same ideas as before, and
/// behind them new ideas of the current round.
pub open spec fn is_topped_up(next: State, state: State) -> bool {
    &&& same_bookkeeping(next, state)
    &&& next.ideas@.len() >= state.ideas@.len()
    &&& next.ideas@.take(state.ideas@.len() as int) == state.ideas@
    &&& forall|k: int|
        state.ideas@.len() <= k < next.ideas@.len() ==> is_newly_generated(
            #[trigger] next.ideas@[k],
            state.iteration,
        )
}

/// The ideas that the generate phase adds keep the rule of the data model
/// that a generated idea has no parents.
pub proof fn lemma_generated_ideas_fit(next: State, state: State, k: int)
    requires
        is_topped_up(next, state),
        state.ideas@.len() <= k < next.ideas@.len(),
    ensures
        next.ideas@[k].parents_fit_origin(),
        next.ideas@[k].is_active(),
        next.ideas@[k].gen == state.iteration,
{
}

impl GeneratePhase {
    /// What to ask of the generator: as many ideas as the population is
    /// short of, for the configured prompt; nothing where it is full.
    pub fn task(state: &State, config: &RunConfig) -> (task: Option<LlmTask>)
        ensures
            task is None <==> deficit(state.ideas@, config.population_size) == 0,
            task is Some ==> (task->0 matches LlmTask::Generate { prompt, count } && prompt
                == config.prompt && count == deficit(state.ideas@, config.population_size)),
    {
        let active = count_active(&state.ideas);
        let wanted = config.population_size as usize;
        if wanted > active {
            Some(LlmTask::Generate { prompt: config.prompt.clone(), count: wanted - active })
        } else {
            None
        }
    }

    /// The audit event of a generate phase that left `next`: of the kind
    /// "generated", for the round of the state, carrying how many ideas came.
    pub fn event(next: &State, count: usize) -> (event: Event)
        ensures
            event.iteration == next.iteration,
            event.event_type == EventType::Generated,
            event.payload == (EventPayload::Count { count }),
    {
        Event::new(next.iteration, EventType::Generated, EventPayload::Count { count })
    }

    /// The state with the new ideas added behind the ones it has.
    pub fn absorb(state: State, new_ideas: Vec<Idea>) -> (next: State)
        ensures
            same_bookkeeping(next, state),
            next.ideas@ == state.ideas@ + new_ideas@,
    {
        let mut next = state;
        let mut added = new_ideas;
        next.ideas.append(&mut added);
        next
    }
}

impl Phase for GeneratePhase {
    /// Every state.
    open spec fn accepts(&self, state: State) -> bool {
        true
    }

    /// The name of the phase: "generate".
    fn name(&self) -> (name: &str)
        ensures
            name@ == "generate"@,
    {
        "generate"
    }

    /// Asks the generator for as many ideas as the population is short of,
    /// adds them to the state and logs how many came. A full population is
    /// returned as it is, without asking. Fails where the generator or the
    /// store fails or the answer holds no list of ideas.
    fn run<S: Storage, L: LlmProvider>(&self, state: State, ctx: &PhaseContext<S, L>) -> (result:
        Result<State, PhaseError>)
        ensures
            deficit(state.ideas@, ctx.config.population_size) == 0 ==> result == Ok::<
                State,
                PhaseError,
            >(state),
            result is Ok ==> is_topped_up(result->Ok_0, state),
            result is Err ==> is_collaborator_failure(result->Err_0),
    {
        let task = match GeneratePhase::task(&state, ctx.config) {
            None => {
                proof {
                    assert(state.ideas@.take(state.ideas@.len() as int) == state.ideas@);
                }
                return Ok(state);
            },
            Some(task) => task,
        };
        let schema_path = join_path(ctx.schema_dir, "generator.output.schema.json");
        let output = match ctx.llm.generate_json(task, schema_path.as_str()) {
            Ok(output) => output,
            Err(error) => {
                return Err(PhaseError::Llm(error));
            },
        };
        let new_ideas = match parse_generated_ideas(&output, state.iteration) {
            Ok(ideas) => ideas,
            Err(error) => {
                return Err(PhaseError::Llm(error));
            },
        };
        let count = new_ideas.len();
        let ghost before = state;
        let next = GeneratePhase::absorb(state, new_ideas);
        let event = GeneratePhase::event(&next, count);
        match stored(ctx.storage.append_event(&next.run_id, &event)) {
            Ok(()) => {},
            Err(error) => {
                return Err(error);
            },
        }
        proof {
            assert(next.ideas@.take(before.ideas@.len() as int) == before.ideas@);
        }
        Ok(next)
    }
}

/// Has the critic score the ideas.
pub struct CriticPhase;

/// The idea is active and has no overall score yet.
pub open spec fn is_unscored(idea: Idea) -> bool {
    idea.is_active() && idea.overall_score is None
}

/// What the critic is told of the unscored ideas among the first `n`:
/// identifier, title and summary of each, in their order.
pub open spec fn unscored_among(ideas: Seq<Idea>, n: nat) -> Seq<(u128, String, String)>
    decreases n,
{
    if n == 0 {
        Seq::empty()
    } else if is_unscored(ideas[n - 1]) {
        unscored_among(ideas, (n - 1) as nat).push(
            (ideas[n - 1].id, ideas[n - 1].title, ideas[n - 1].summary),
        )
    } else {
        unscored_among(ideas, (n - 1) as nat)
    }
}

/// The idea with its overall score computed anew where it is active, and as
/// it is where it is archived.
pub open spec fn rescored_idea(idea: Idea, weights: ScoringWeights) -> Idea {
    if idea.is_active() {
        Idea { overall_score: Some(overall_score(idea.scores, weights) as i64), ..idea }
    } else {
        idea
    }
}

/// The ideas, each active one with its overall score computed anew.
pub open spec fn rescored(ideas: Seq<Idea>, weights: ScoringWeights) -> Seq<Idea> {
    Seq::new(ideas.len(), |k: int| rescored_idea(ideas[k], weights))
}

/// Why the critic's answer cannot be taken in, if it cannot: the failure of
/// the first faulty patch; else, where an idea is active and the weights are
/// all zero, the failure of the scoring.
pub open spec fn critic_failure(ideas: Seq<Idea>, output: LlmOutput, weights: ScoringWeights) -> Option<
    PhaseError,
> {
    match output.patches {
        None => Some(PhaseError::Llm(LlmError::MissingPatches)),
        Some(patches) => {
            let outcome = apply_patches(ideas, patches@, patches@.len());
            match outcome.1 {
                Some(error) => Some(PhaseError::Llm(error)),
                None => if weights.total() == 0 && active_count(outcome.0) > 0 {
                    Some(PhaseError::Scoring(ScoringError::ZeroTotalWeight))
                } else {
                    None
                },
            }
        },
    }
}

/// What the critic's answer makes of the ideas: the patches applied in
/// order, then every active idea scored anew under the weights.
pub open spec fn critic_ideas(ideas: Seq<Idea>, output: LlmOutput, weights: ScoringWeights) -> Seq<Idea>
    recommends
        output.patches is Some,
{
    let patches = output.patches->0@;
    rescored(apply_patches(ideas, patches, patches.len()).0, weights)
}

/// Where an idea is active, the count of active ideas is not zero.
proof fn lemma_active_prefix(ideas: Seq<Idea>, k: int)
    requires
        0 <= k < ideas.len(),
        ideas[k].is_active(),
    ensures
        active_count(ideas) > 0,
    decreases ideas.len(),
{
    if k < ideas.len() - 1 {
        lemma_active_prefix(ideas.drop_last(), k);
    }
}

/// Where no idea is active, the count of active ideas is zero.
proof fn lemma_no_active(ideas: Seq<Idea>)
    requires
        forall|k: int| 0 <= k < ideas.len() ==> !(#[trigger] ideas[k]).is_active(),
    ensures
        active_count(ideas) == 0,
    decreases ideas.len(),
{
    if ideas.len() > 0 {
        lemma_no_active(ideas.drop_last());
    }
}

/// Where something is to be sent to the critic, an idea is active.
proof fn lemma_some_unscored(ideas: Seq<Idea>, n: nat)
    requires
        n <= ideas.len(),
        unscored_among(ideas, n).len() > 0,
    ensures
        exists|k: int| 0 <= k < n && (#[trigger] ideas[k]).is_active(),
    decreases n,
{
    if n > 0 {
        if !is_unscored(ideas[n - 1]) {
            lemma_some_unscored(ideas, (n - 1) as nat);
            let k = choose|k: int| 0 <= k < n - 1 && (#[trigger] ideas[k]).is_active();
            assert(ideas[k].is_active());
        } else {
            assert(ideas[n - 1].is_active());
        }
    }
}

/// Under weights that are all zero the critic's answer cannot be taken in
/// where an idea is active: there is no score to give it.
pub proof fn lemma_zero_weights_fail_the_critic(ideas: Seq<Idea>, output: LlmOutput, weights: ScoringWeights)
    requires
        weights.total() == 0,
        active_count(ideas) > 0 || unscored_among(ideas, ideas.len()).len() > 0,
    ensures
        critic_failure(ideas, output, weights) is Some,
{
    if output.patches is Some {
        let patches = output.patches->0@;
        let outcome = apply_patches(ideas, patches, patches.len());
        if outcome.1 is None {
            crate::llm::lemma_patches_keep_ideas(ideas, patches, patches.len());
            if unscored_among(ideas, ideas.len()).len() > 0 {
                lemma_some_unscored(ideas, ideas.len());
            } else {
                lemma_some_active(ideas);
            }
            let k = choose|k: int| 0 <= k < ideas.len() && (#[trigger] ideas[k]).is_active();
            assert(outcome.0[k].status == ideas[k].status);
            lemma_active_prefix(outcome.0, k);
        }
    }
}

/// Where the count of active ideas is not zero, an idea is active.
proof fn lemma_some_active(ideas: Seq<Idea>)
    requires
        active_count(ideas) > 0,
    ensures
        exists|k: int| 0 <= k < ideas.len() && (#[trigger] ideas[k]).is_active(),
{
    if forall|k: int| 0 <= k < ideas.len() ==> !(#[trigger] ideas[k]).is_active() {
        lemma_no_active(ideas);
    }
}

/// Where nothing is to be sent to the critic, no idea is unscored.
proof fn lemma_none_unscored(ideas: Seq<Idea>, n: nat)
    requires
        n <= ideas.len(),
        unscored_among(ideas, n).len() == 0,
    ensures
        forall|k: int| 0 <= k < n ==> !is_unscored(#[trigger] ideas[k]),
    decreases n,
{
    if n > 0 {
        if !is_unscored(ideas[n - 1]) {
            lemma_none_unscored(ideas, (n - 1) as nat);
        }
    }
}

impl CriticPhase {
    /// What to ask of the critic: the active ideas without an overall score,
    /// each as identifier, title and summary; nothing where there is none.
    pub fn task(state: &State) -> (task: Option<LlmTask>)
        ensures
            task is None <==> unscored_among(state.ideas@, state.ideas@.len()).len() == 0,
            task is Some ==> (task->0 matches LlmTask::Critic { ideas } && ideas@ == unscored_among(
                state.ideas@,
                state.ideas@.len(),
            )),
    {
        let mut unscored: Vec<(u128, String, String)> = Vec::new();
        let mut k: usize = 0;
        while k < state.ideas.len()
            invariant
                k <= state.ideas.len(),
                unscored@ == unscored_among(state.ideas@, k as nat),
            decreases state.ideas.len() - k,
        {
            let idea = &state.ideas[k];
            if idea.status == IdeaStatus::Active && idea.overall_score.is_none() {
                unscored.push((idea.id, idea.title.clone(), idea.summary.clone()));
            }
            k += 1;
        }
        if unscored.len() == 0 {
            None
        } else {
            Some(LlmTask::Critic { ideas: unscored })
        }
    }

    /// The audit event of a critic phase that left `next`: of the kind
    /// "scored", for the round of the state, carrying how many ideas were
    /// sent to the critic.
    pub fn event(next: &State, count: usize) -> (event: Event)
        ensures
            event.iteration == next.iteration,
            event.event_type == EventType::Scored,
            event.payload == (EventPayload::Count { count }),
    {
        Event::new(next.iteration, EventType::Scored, EventPayload::Count { count })
    }

    /// Takes the critic's answer in: applies its patches, then computes the
    /// overall score of every active idea anew, the newly patched and the
    /// others alike.
    pub fn absorb(state: State, output: &LlmOutput, weights: &ScoringWeights) -> (result: Result<
        State,
        PhaseError,
    >)
        ensures
            match critic_failure(state.ideas@, *output, *weights) {
                Some(error) => result == Err::<State, PhaseError>(error),
                None => result is Ok && same_bookkeeping(result->Ok_0, state) && result->Ok_0.ideas@
                    == critic_ideas(state.ideas@, *output, *weights),
            },
            result is Ok ==> result->Ok_0.ideas@.len() == state.ideas@.len(),
            result is Err ==> is_round_failure(result->Err_0, *weights),
            result is Ok ==> forall|k: int|
                0 <= k < result->Ok_0.ideas@.len() && (#[trigger] result->Ok_0.ideas@[k]).is_active()
                    ==> result->Ok_0.ideas@[k].overall_score is Some,
    {
        let mut next = state;
        match apply_critic_patches(&mut next.ideas, output) {
            Ok(()) => {},
            Err(error) => {
                return Err(PhaseError::Llm(error));
            },
        }
        let ghost patched = next.ideas@;
        let mut k: usize = 0;
        while k < next.ideas.len()
            invariant
                k <= next.ideas.len(),
                same_bookkeeping(next, state),
                next.ideas@.len() == patched.len(),
                patched.len() == state.ideas@.len(),
                output.patches is Some,
                apply_patches(state.ideas@, output.patches->0@, output.patches->0@.len()) == (
                    patched,
                    None::<LlmError>,
                ),
                forall|j: int| 0 <= j < k ==> next.ideas@[j] == rescored_idea(patched[j], *weights),
                forall|j: int| k <= j < patched.len() ==> next.ideas@[j] == patched[j],
                weights.total() == 0 ==> forall|j: int| 0 <= j < k ==> !(#[trigger] patched[j]).is_active(),
            decreases next.ideas.len() - k,
        {
            if next.ideas[k].status == IdeaStatus::Active {
                match calculate_overall_score(&next.ideas[k].scores, weights) {
                    Ok(score) => {
                        next.ideas[k].overall_score = Some(score);
                    },
                    Err(error) => {
                        proof {
                            lemma_active_prefix(patched, k as int);
                        }
                        return Err(PhaseError::Scoring(error));
                    },
                }
            }
            k += 1;
        }
        proof {
            assert(next.ideas@ =~= rescored(patched, *weights));
            if weights.total() == 0 {
                lemma_no_active(patched);
            }
        }
        Ok(next)
    }
}

/// `next` is `state` after a critic phase under `weights`: where an active
/// idea was unscored, the ideas as an answer of the critic leaves them (its
/// patches applied, every active idea scored anew); else the state as it
/// was. Either way every active idea has an overall score.
pub open spec fn is_judged(next: State, state: State, weights: ScoringWeights) -> bool {
    &&& same_bookkeeping(next, state)
    &&& next.ideas@.len() == state.ideas@.len()
    &&& unscored_among(state.ideas@, state.ideas@.len()).len() == 0 ==> next == state
    &&& unscored_among(state.ideas@, state.ideas@.len()).len() > 0 ==> exists|answer: LlmOutput| #[trigger]
        critic_failure(state.ideas@, answer, weights) is None && next.ideas@ == critic_ideas(
            state.ideas@,
            answer,
            weights,
        )
    &&& forall|k: int|
        0 <= k < next.ideas@.len() && (#[trigger] next.ideas@[k]).is_active()
            ==> next.ideas@[k].overall_score is Some
}

impl Phase for CriticPhase {
    /// Every state.
    open spec fn accepts(&self, state: State) -> bool {
        true
    }

    /// The name of the phase: "critic".
    fn name(&self) -> (name: &str)
        ensures
            name@ == "critic"@,
    {
        "critic"
    }

    /// Has the critic score the active ideas that have no overall score,
    /// takes its answer in and logs how many ideas were sent. Where every
    /// active idea is scored the state is returned as it is, without asking.
    /// On success every active idea has an overall score.
    fn run<S: Storage, L: LlmProvider>(&self, state: State, ctx: &PhaseContext<S, L>) -> (result:
        Result<State, PhaseError>)
        ensures
            unscored_among(state.ideas@, state.ideas@.len()).len() == 0 ==> result == Ok::<
                State,
                PhaseError,
            >(state),
            result is Ok ==> is_judged(result->Ok_0, state, ctx.config.scoring_weights),
            result is Err ==> is_round_failure(result->Err_0, ctx.config.scoring_weights),
            ctx.config.scoring_weights.total() == 0 && unscored_among(
                state.ideas@,
                state.ideas@.len(),
            ).len() > 0 ==> result is Err,
    {
        let task = match CriticPhase::task(&state) {
            None => {
                proof {
                    lemma_none_unscored(state.ideas@, state.ideas@.len());
                }
                return Ok(state);
            },
            Some(task) => task,
        };
        let count = match &task {
            LlmTask::Critic { ideas } => ideas.len(),
            _ => 0,
        };
        let schema_path = join_path(ctx.schema_dir, "critic.output.schema.json");
        let output = match ctx.llm.generate_json(task, schema_path.as_str()) {
            Ok(output) => output,
            Err(error) => {
                return Err(PhaseError::Llm(error));
            },
        };
        proof {
            if ctx.config.scoring_weights.total() == 0 {
                lemma_zero_weights_fail_the_critic(state.ideas@, output, ctx.config.scoring_weights);
            }
        }
        let next = match CriticPhase::absorb(state, &output, &ctx.config.scoring_weights) {
            Ok(next) => next,
            Err(error) => {
                return Err(error);
            },
        };
        proof {
            assert(critic_failure(state.ideas@, output, ctx.config.scoring_weights) is None
                && next.ideas@ == critic_ideas(state.ideas@, output, ctx.config.scoring_weights));
        }
        let event = CriticPhase::event(&next, count);
        match stored(ctx.storage.append_event(&next.run_id, &event)) {
            Ok(()) => {},
            Err(error) => {
                return Err(error);
            },
        }
        Ok(next)
    }
}

/// Keeps the survivors and archives the rest.
pub struct SelectPhase;

/// The idea after a selection that kept `selected`: archived where it was
/// active and is not among the kept, unchanged otherwise.
pub open spec fn archived_idea(idea: Idea, selected: Seq<u128>) -> Idea {
    if idea.is_active() && !selected.contains(idea.id) {
        Idea { status: IdeaStatus::Archived, ..idea }
    } else {
        idea
    }
}

/// The ideas after a selection that kept `selected`.
pub open spec fn archived(ideas: Seq<Idea>, selected: Seq<u128>) -> Seq<Idea> {
    Seq::new(ideas.len(), |k: int| archived_idea(ideas[k], selected))
}

/// How many of the first `n` ideas a selection that kept `selected` archives.
pub open spec fn archived_total(ideas: Seq<Idea>, selected: Seq<u128>, n: nat) -> nat
    decreases n,
{
    if n == 0 {
        0
    } else if ideas[n - 1].is_active() && !selected.contains(ideas[n - 1].id) {
        archived_total(ideas, selected, (n - 1) as nat) + 1
    } else {
        archived_total(ideas, selected, (n - 1) as nat)
    }
}

/// The score `a` is at least `b`, a missing score being below every score.
pub open spec fn at_least(a: Option<i64>, b: Option<i64>) -> bool {
    match (a, b) {
        (_, None) => true,
        (None, Some(_)) => false,
        (Some(x), Some(y)) => x >= y,
    }
}

/// The place of the best of the active ideas among the first `n`: the one
/// with the highest overall score, and of several with that score the last.
pub open spec fn best_among(ideas: Seq<Idea>, n: nat) -> Option<int>
    decreases n,
{
    if n == 0 {
        None
    } else {
        let before = best_among(ideas, (n - 1) as nat);
        if ideas[n - 1].is_active() && (before is None || at_least(
            ideas[n - 1].overall_score,
            ideas[before->0].overall_score,
        )) {
            Some(n - 1)
        } else {
            before
        }
    }
}

/// The best score on record after a selection that kept `selected`: the
/// overall score of the best of the ideas that are still active, and the
/// score on record before where no idea is.
pub open spec fn best_after(ideas: Seq<Idea>, selected: Seq<u128>, previous: Option<i64>) -> Option<
    i64,
> {
    let kept = archived(ideas, selected);
    let best = best_among(kept, kept.len());
    if best is Some {
        kept[best->0].overall_score
    } else {
        previous
    }
}

/// `next` is `state` after a selection that kept `selected`: the others are
/// archived, the best of the remaining active ideas is recorded (the old
/// record stays where no idea is active), and the stagnation counter is back
/// to 0 where the best score has improved and one higher where it has not.
pub open spec fn is_settled(next: State, state: State, selected: Seq<u128>) -> bool {
    let best = best_among(next.ideas@, next.ideas@.len());
    &&& next.run_id == state.run_id
    &&& next.iteration == state.iteration
    &&& next.ideas@ == archived(state.ideas@, selected)
    &&& next.best_idea_id == if best is Some {
        Some(next.ideas@[best->0].id)
    } else {
        state.best_idea_id
    }
    &&& next.best_score == if best is Some {
        next.ideas@[best->0].overall_score
    } else {
        state.best_score
    }
    &&& next.stagnation_counter == next_stagnation(
        next.best_score,
        state.best_score,
        state.stagnation_counter,
    )
}

/// The best of the active ideas is an active idea, and no active idea has a
/// higher overall score. There is a best exactly where an idea is active.
pub proof fn lemma_best_is_maximal(ideas: Seq<Idea>, n: nat)
    requires
        n <= ideas.len(),
    ensures
        best_among(ideas, n) is Some ==> 0 <= best_among(ideas, n)->0 < n && ideas[best_among(
            ideas,
            n,
        )->0].is_active(),
        forall|k: int|
            0 <= k < n && (#[trigger] ideas[k]).is_active() ==> best_among(ideas, n) is Some
                && at_least(ideas[best_among(ideas, n)->0].overall_score, ideas[k].overall_score),
    decreases n,
{
    if n > 0 {
        lemma_best_is_maximal(ideas, (n - 1) as nat);
        let before = best_among(ideas, (n - 1) as nat);
        let now = best_among(ideas, n);
        assert forall|k: int| 0 <= k < n && (#[trigger] ideas[k]).is_active() implies now is Some
            && at_least(ideas[now->0].overall_score, ideas[k].overall_score) by {
            if k < n - 1 {
                assert(before is Some);
                assert(at_least(ideas[before->0].overall_score, ideas[k].overall_score));
            }
        }
    }
}

/// Where the selection has at least one elite place and an idea can be
/// ranked, the best score recorded after the selection is the highest overall
/// score of the ranking.
pub proof fn lemma_best_after_selection_is_top(
    next: State,
    state: State,
    selected: Seq<u128>,
    elite_count: usize,
    population_size: usize,
)
    requires
        state.ideas@.len() <= usize::MAX,
        is_settled(next, state, selected),
        is_selection(state.ideas@, elite_count, population_size, selected),
        elite_count >= 1,
        score_ranking(state.ideas@).len() > 0,
    ensures
        next.best_score == state.ideas@[score_ranking(state.ideas@)[0] as int].overall_score,
        next.best_score is Some,
{
    let ideas = state.ideas@;
    let ranked = score_ranking(ideas);
    let top = ranked[0] as int;
    crate::scoring::lemma_score_ranking_valid(ideas);
    assert(ranked[0] < ideas.len() && ideas[top].is_ranked());
    let elite = crate::scoring::elite_of(crate::scoring::ranked_ids(ideas), elite_count);
    assert(elite.len() >= 1);
    assert(elite[0] == crate::scoring::ranked_ids(ideas)[0]);
    assert(selected[0] == elite[0]);
    assert(selected.contains(ideas[top].id));
    let after = next.ideas@;
    assert(after[top] == archived_idea(ideas[top], selected));
    assert(after[top].is_active());
    lemma_best_is_maximal(after, after.len());
    let best = best_among(after, after.len())->0;
    assert(at_least(after[best].overall_score, after[top].overall_score));
    assert(after[best] == archived_idea(ideas[best], selected));
    assert(ideas[best].is_ranked());
    crate::scoring::lemma_score_ranking_complete(ideas, best);
    let k = choose|k: int| 0 <= k < ranked.len() && #[trigger] ranked[k] == best;
    if k > 0 {
        crate::scoring::lemma_score_ranking_descends(ideas, 0, k);
    }
}

/// True when the score `a` is at least `b`, a missing score being below
/// every score.
fn score_at_least(a: Option<i64>, b: Option<i64>) -> (holds: bool)
    ensures
        holds == at_least(a, b),
{
    match b {
        None => true,
        Some(y) => match a {
            None => false,
            Some(x) => x >= y,
        },
    }
}

/// The place of the best of the active ideas.
pub fn find_best(ideas: &Vec<Idea>) -> (best: Option<usize>)
    ensures
        best is Some <==> best_among(ideas@, ideas@.len()) is Some,
        best is Some ==> best->0 == best_among(ideas@, ideas@.len())->0 && best->0 < ideas@.len(),
{
    let mut best: Option<usize> = None;
    let mut k: usize = 0;
    while k < ideas.len()
        invariant
            k <= ideas.len(),
            best is Some <==> best_among(ideas@, k as nat) is Some,
            best is Some ==> best->0 == best_among(ideas@, k as nat)->0 && best->0 < k,
        decreases ideas.len() - k,
    {
        if ideas[k].status == IdeaStatus::Active {
            let better = match best {
                None => true,
                Some(at) => score_at_least(ideas[k].overall_score, ideas[at].overall_score),
            };
            if better {
                best = Some(k);
            }
        }
        k += 1;
    }
    best
}

impl SelectPhase {
    /// The audit event of a select phase that left `next`: of the kind
    /// "selected", for the round of the state, carrying how many ideas were
    /// selected, how many were archived, and the best score as the state
    /// records it.
    pub fn event(next: &State, selected: usize, archived: usize) -> (event: Event)
        ensures
            event.iteration == next.iteration,
            event.event_type == EventType::Selected,
            event.payload == (EventPayload::Selection {
                selected,
                archived,
                best_score: next.best_score,
            }),
    {
        Event::new(
            next.iteration,
            EventType::Selected,
            EventPayload::Selection { selected, archived, best_score: next.best_score },
        )
    }

    /// The state after a selection that kept `selected`, and how many ideas
    /// were archived. Only where the best score does not improve, so that
    /// the stagnation counter is raised, must there be room to raise it.
    pub fn settle(state: State, selected: &Vec<u128>) -> (outcome: (State, usize))
        requires
            !improved(
                best_after(state.ideas@, selected@, state.best_score),
                state.best_score,
            ) ==> state.stagnation_counter < u32::MAX,
        ensures
            is_settled(outcome.0, state, selected@),
            outcome.1 == archived_total(state.ideas@, selected@, state.ideas@.len()),
    {
        let mut next = state;
        let mut archived_count: usize = 0;
        let mut k: usize = 0;
        while k < next.ideas.len()
            invariant
                k <= next.ideas.len(),
                next.ideas@.len() == state.ideas@.len(),
                next.run_id == state.run_id,
                next.iteration == state.iteration,
                next.best_idea_id == state.best_idea_id,
                next.best_score == state.best_score,
                next.stagnation_counter == state.stagnation_counter,
                archived_count == archived_total(state.ideas@, selected@, k as nat),
                archived_count <= k,
                forall|j: int| 0 <= j < k ==> next.ideas@[j] == archived_idea(state.ideas@[j], selected@),
                forall|j: int| k <= j < state.ideas@.len() ==> next.ideas@[j] == state.ideas@[j],
            decreases next.ideas.len() - k,
        {
            if next.ideas[k].status == IdeaStatus::Active && !contains_id(selected, next.ideas[k].id) {
                next.ideas[k].status = IdeaStatus::Archived;
                archived_count += 1;
            }
            k += 1;
        }
        proof {
            assert(next.ideas@ =~= archived(state.ideas@, selected@));
        }
        let previous_best = next.best_score;
        match find_best(&next.ideas) {
            Some(at) => {
                next.best_idea_id = Some(next.ideas[at].id);
                next.best_score = next.ideas[at].overall_score;
            },
            None => {},
        }
        next.stagnation_counter = update_stagnation(
            next.best_score,
            previous_best,
            next.stagnation_counter,
        );
        (next, archived_count)
    }
}

/// `next` is `state` after a select phase: settled on one of the possible
/// selections.
pub open spec fn is_selected(next: State, state: State, elite_count: usize, population_size: usize) -> bool {
    exists|selected: Seq<u128>|
        #[trigger] is_selection(state.ideas@, elite_count, population_size, selected)
            && is_settled(next, state, selected)
}

impl Phase for SelectPhase {
    /// The states whose stagnation counter can still be raised.
    open spec fn accepts(&self, state: State) -> bool {
        state.stagnation_counter < u32::MAX
    }

    /// The name of the phase: "select".
    fn name(&self) -> (name: &str)
        ensures
            name@ == "select"@,
    {
        "select"
    }

    /// Chooses the survivors (the elite for certain, the diversity sample at
    /// random), archives every other active idea, records the best of the
    /// survivors, updates the stagnation counter and logs the outcome. Fails
    /// only where the store fails.
    fn run<S: Storage, L: LlmProvider>(&self, state: State, ctx: &PhaseContext<S, L>) -> (result:
        Result<State, PhaseError>)
        ensures
            result is Ok ==> is_selected(
                result->Ok_0,
                state,
                ctx.config.elite_count as usize,
                ctx.config.population_size as usize,
            ),
            result is Err ==> result->Err_0 is Storage,
    {
        let ghost before = state;
        let selected = select_ideas(
            &state.ideas,
            ctx.config.elite_count as usize,
            ctx.config.population_size as usize,
        );
        let (next, archived_count) = SelectPhase::settle(state, &selected);
        let event = SelectPhase::event(&next, selected.len(), archived_count);
        match stored(ctx.storage.append_event(&next.run_id, &event)) {
            Ok(()) => {},
            Err(error) => {
                return Err(error);
            },
        }
        proof {
            assert(is_selection(
                before.ideas@,
                ctx.config.elite_count as usize,
                ctx.config.population_size as usize,
                selected@,
            ) && is_settled(next, before, selected@));
        }
        Ok(next)
    }
}

/// Has the generator improve the best ideas that the judge has commented.
pub struct RefinePhase {
    /// How many ideas are refined in a round.
    pub top_k: usize,
}

/// The idea can be refined: it is active and carries notes of the judge.
pub open spec fn has_notes(idea: Idea) -> bool {
    idea.is_active() && idea.judge_notes is Some
}

/// The places, among the first `n` ideas, of those that can be refined.
pub open spec fn noted_positions(ideas: Seq<Idea>, n: nat) -> Seq<usize>
    decreases n,
{
    if n == 0 {
        Seq::empty()
    } else if has_notes(ideas[n - 1]) {
        noted_positions(ideas, (n - 1) as nat).push((n - 1) as usize)
    } else {
        noted_positions(ideas, (n - 1) as nat)
    }
}

/// The ranking key of an overall score: the score, and for a missing score
/// a key below every score.
pub open spec fn rank_key(score: Option<i64>) -> i128 {
    match score {
        Some(value) => value as i128,
        None => (i64::MIN - 1) as i128,
    }
}

/// The ranking keys of the ideas at `positions`.
pub open spec fn rank_keys(ideas: Seq<Idea>, positions: Seq<usize>) -> Seq<i128> {
    Seq::new(positions.len(), |k: int| rank_key(ideas[positions[k] as int].overall_score))
}

/// The places of the ideas that are refined: of those that can be, ranked
/// by overall score (highest first, equal scores in their order, unscored
/// ideas last), the first `top_k`.
pub open spec fn refine_choice(ideas: Seq<Idea>, top_k: usize) -> Seq<usize> {
    let candidates = noted_positions(ideas, ideas.len());
    let order = arranged(candidates, ranking(rank_keys(ideas, candidates)));
    if top_k <= order.len() {
        order.take(top_k as int)
    } else {
        order
    }
}

/// `child` is a refinement of `parent` made in round `gen` from the draft
/// `patch`: a new active, unscored idea whose one parent is `parent`, with
/// the texts of the draft, and the parent's text wherever the draft has
/// none.
pub open spec fn is_refinement_of(child: Idea, parent: Idea, patch: IdeaDraft, gen: u32) -> bool {
    &&& child.gen == gen
    &&& child.origin == Origin::Refined
    &&& child.parents@ == seq![parent.id]
    &&& child.title@ == text_or(patch.title, parent.title@)
    &&& child.summary@ == text_or(patch.summary, parent.summary@)
    &&& child.facets@ == facets_or(patch.facets, parent.facets@)
    &&& child.scores.is_zero()
    &&& child.overall_score is None
    &&& child.judge_notes is None
    &&& child.status == IdeaStatus::Active
}

/// `child` is an idea that the refine phase of round `gen` adds: a new
/// active, unscored idea whose one parent is one of the ideas at `chosen`.
pub open spec fn is_refined_child(child: Idea, ideas: Seq<Idea>, chosen: Seq<usize>, gen: u32) -> bool {
    &&& child.gen == gen
    &&& child.origin == Origin::Refined
    &&& child.scores.is_zero()
    &&& child.overall_score is None
    &&& child.judge_notes is None
    &&& child.status == IdeaStatus::Active
    &&& exists|j: int| 0 <= j < chosen.len() && child.parents@ == seq![ideas[#[trigger] chosen[j] as int].id]
}

/// `children` are the refinements that the answers to the first `n` chosen
/// ideas make: going through the chosen ideas in turn, one refinement of the
/// idea for each answer that holds a patch, none for an answer without.
pub open spec fn is_offspring(
    children: Seq<Idea>,
    ideas: Seq<Idea>,
    chosen: Seq<usize>,
    patches: Seq<Option<IdeaDraft>>,
    gen: u32,
    n: nat,
) -> bool
    decreases n,
{
    if n == 0 {
        children.len() == 0
    } else {
        match patches[n - 1] {
            Some(patch) => children.len() > 0 && is_refinement_of(
                children.last(),
                ideas[chosen[n - 1] as int],
                patch,
                gen,
            ) && is_offspring(children.drop_last(), ideas, chosen, patches, gen, (n - 1) as nat),
            None => is_offspring(children, ideas, chosen, patches, gen, (n - 1) as nat),
        }
    }
}

/// `next` is `state` after a refine phase that refines `top_k` ideas: the
/// same ideas as before, and behind them the refinements that the answers of
/// the generator make of the chosen ideas, in the order of the choice.
pub open spec fn is_refined(next: State, state: State, top_k: usize) -> bool {
    let chosen = refine_choice(state.ideas@, top_k);
    &&& same_bookkeeping(next, state)
    &&& state.ideas@.len() <= next.ideas@.len() <= state.ideas@.len() + chosen.len()
    &&& next.ideas@.take(state.ideas@.len() as int) == state.ideas@
    &&& exists|patches: Seq<Option<IdeaDraft>>|
        patches.len() == chosen.len() && #[trigger] is_offspring(
            next.ideas@.skip(state.ideas@.len() as int),
            state.ideas@,
            chosen,
            patches,
            state.iteration,
            chosen.len(),
        )
    &&& forall|k: int|
        state.ideas@.len() <= k < next.ideas@.len() ==> is_refined_child(
            #[trigger] next.ideas@[k],
            state.ideas@,
            chosen,
            state.iteration,
        )
}

/// The ideas that the refine phase adds keep the rule of the data model
/// that an idea made from another one names its parent.
pub proof fn lemma_refined_ideas_fit(next: State, state: State, top_k: usize, k: int)
    requires
        is_refined(next, state, top_k),
        state.ideas@.len() <= k < next.ideas@.len(),
    ensures
        next.ideas@[k].parents_fit_origin(),
        next.ideas@[k].parents@.len() == 1,
        next.ideas@[k].is_active(),
        next.ideas@[k].gen == state.iteration,
{
    let chosen = refine_choice(state.ideas@, top_k);
    assert(is_refined_child(next.ideas@[k], state.ideas@, chosen, state.iteration));
}

/// Whether children are the offspring of the first `n` answers depends on
/// those answers alone.
proof fn lemma_offspring_reads_prefix(
    children: Seq<Idea>,
    ideas: Seq<Idea>,
    chosen: Seq<usize>,
    patches: Seq<Option<IdeaDraft>>,
    longer: Seq<Option<IdeaDraft>>,
    gen: u32,
    n: nat,
)
    requires
        n <= patches.len() <= longer.len(),
        forall|k: int| 0 <= k < n ==> patches[k] == longer[k],
    ensures
        is_offspring(children, ideas, chosen, patches, gen, n) == is_offspring(
            children,
            ideas,
            chosen,
            longer,
            gen,
            n,
        ),
    decreases n,
{
    if n > 0 {
        lemma_offspring_reads_prefix(children, ideas, chosen, patches, longer, gen, (n - 1) as nat);
        lemma_offspring_reads_prefix(
            children.drop_last(),
            ideas,
            chosen,
            patches,
            longer,
            gen,
            (n - 1) as nat,
        );
    }
}

/// Every place listed is the place of an idea that can be refined.
proof fn lemma_noted_positions_valid(ideas: Seq<Idea>, n: nat)
    requires
        n <= ideas.len(),
        ideas.len() <= usize::MAX,
    ensures
        forall|k: int|
            0 <= k < noted_positions(ideas, n).len() ==> (#[trigger] noted_positions(ideas, n)[k])
                < n && has_notes(ideas[noted_positions(ideas, n)[k] as int]),
    decreases n,
{
    if n > 0 {
        lemma_noted_positions_valid(ideas, (n - 1) as nat);
        let prev = noted_positions(ideas, (n - 1) as nat);
        let now = noted_positions(ideas, n);
        assert forall|k: int| 0 <= k < now.len() implies (#[trigger] now[k]) < n && has_notes(
            ideas[now[k] as int],
        ) by {
            if k < prev.len() {
                assert(now[k] == prev[k]);
            }
        }
    }
}

impl RefinePhase {
    /// The places of the ideas to refine, best first.
    pub fn candidates(&self, state: &State) -> (chosen: Vec<usize>)
        ensures
            chosen@ == refine_choice(state.ideas@, self.top_k),
            chosen@.len() <= self.top_k,
            forall|k: int|
                0 <= k < chosen@.len() ==> (#[trigger] chosen@[k]) < state.ideas@.len() && has_notes(
                    state.ideas@[chosen@[k] as int],
                ),
    {
        let mut positions: Vec<usize> = Vec::new();
        let mut keys: Vec<i128> = Vec::new();
        let mut i: usize = 0;
        while i < state.ideas.len()
            invariant
                i <= state.ideas.len(),
                positions@ == noted_positions(state.ideas@, i as nat),
                keys@ == rank_keys(state.ideas@, positions@),
            decreases state.ideas.len() - i,
        {
            let idea = &state.ideas[i];
            if idea.status == IdeaStatus::Active && idea.judge_notes.is_some() {
                positions.push(i);
                let key: i128 = match idea.overall_score {
                    Some(value) => value as i128,
                    None => i64::MIN as i128 - 1,
                };
                keys.push(key);
                proof {
                    assert(keys@ =~= rank_keys(state.ideas@, positions@));
                }
            }
            i += 1;
        }
        let order = rank_candidates(&positions, &keys);
        proof {
            lemma_noted_positions_valid(state.ideas@, state.ideas@.len());
            crate::ranking::lemma_ranking_is_stable_descending(keys@, keys@.len());
            let ranks = ranking(keys@);
            assert forall|k: int| 0 <= k < order@.len() implies (#[trigger] order@[k])
                < state.ideas@.len() && has_notes(state.ideas@[order@[k] as int]) by {
                assert(ranks[k] < positions@.len());
                assert(order@[k] == positions@[ranks[k] as int]);
            }
        }
        let mut chosen: Vec<usize> = Vec::new();
        let mut k: usize = 0;
        while k < order.len() && k < self.top_k
            invariant
                k <= order.len(),
                k <= self.top_k,
                chosen@ == order@.take(k as int),
            decreases order.len() - k,
        {
            chosen.push(order[k]);
            proof {
                assert(chosen@ == order@.take(k + 1));
            }
            k += 1;
        }
        proof {
            if self.top_k > order.len() {
                assert(order@.take(k as int) == order@);
            }
        }
        chosen
    }

    /// The audit event of a refine phase that left `next`: of the kind
    /// "refined", for the round of the state, carrying how many refinements
    /// were made.
    pub fn event(next: &State, count: usize) -> (event: Event)
        ensures
            event.iteration == next.iteration,
            event.event_type == EventType::Refined,
            event.payload == (EventPayload::Count { count }),
    {
        Event::new(next.iteration, EventType::Refined, EventPayload::Count { count })
    }

    /// What to ask of the generator for one idea: to improve it along the
    /// judge's notes (no notes read as empty notes).
    pub fn task(idea: &Idea) -> (task: LlmTask)
        ensures
            task matches LlmTask::Refine { idea_id, title, summary, facets, judge_notes } && idea_id
                == idea.id && title == idea.title && summary == idea.summary && facets
                == idea.facets && judge_notes@ == text_or(idea.judge_notes, Seq::empty()),
    {
        proof {
            reveal_strlit("");
            assert(""@ =~= Seq::<char>::empty());
        }
        LlmTask::Refine {
            idea_id: idea.id,
            title: idea.title.clone(),
            summary: idea.summary.clone(),
            facets: idea.facets.duplicate(),
            judge_notes: text_or_else(&idea.judge_notes, ""),
        }
    }

    /// The refinement of `parent` that the answer describes, under a fresh
    /// random identifier; none where the answer holds no patch.
    pub fn refined(parent: &Idea, output: &LlmOutput, iteration: u32) -> (child: Option<Idea>)
        ensures
            child is None <==> output.patch is None,
            child is Some ==> is_refinement_of(child->0, *parent, output.patch->0, iteration),
    {
        match &output.patch {
            None => None,
            Some(patch) => {
                let title = text_or_else(&patch.title, parent.title.as_str());
                let summary = text_or_else(&patch.summary, parent.summary.as_str());
                let facets = fill_facets(&patch.facets, &parent.facets);
                let mut parents: Vec<u128> = Vec::new();
                parents.push(parent.id);
                let child = Idea::new(title, summary, facets, iteration, Origin::Refined).with_parents(
                    parents,
                );
                proof {
                    assert(child.parents@ =~= seq![parent.id]);
                }
                Some(child)
            },
        }
    }
}

impl Phase for RefinePhase {
    /// Every state.
    open spec fn accepts(&self, state: State) -> bool {
        true
    }

    /// The name of the phase: "refine".
    fn name(&self) -> (name: &str)
        ensures
            name@ == "refine"@,
    {
        "refine"
    }

    /// Has the generator improve each of the chosen ideas in turn, adds the
    /// refinements as new ideas of the current round and logs how many there
    /// are. Where no idea can be refined the state is returned as it is,
    /// without asking. Fails where the generator or the store fails.
    fn run<S: Storage, L: LlmProvider>(&self, state: State, ctx: &PhaseContext<S, L>) -> (result:
        Result<State, PhaseError>)
        ensures
            refine_choice(state.ideas@, self.top_k).len() == 0 ==> result == Ok::<State, PhaseError>(
                state,
            ),
            result is Ok ==> is_refined(result->Ok_0, state, self.top_k),
            result is Err ==> is_collaborator_failure(result->Err_0),
    {
        let chosen = self.candidates(&state);
        if chosen.len() == 0 {
            proof {
                assert(state.ideas@.take(state.ideas@.len() as int) == state.ideas@);
                assert(is_offspring(
                    state.ideas@.skip(state.ideas@.len() as int),
                    state.ideas@,
                    chosen@,
                    Seq::<Option<IdeaDraft>>::empty(),
                    state.iteration,
                    0,
                ));
            }
            return Ok(state);
        }
        let schema_path = join_path(ctx.schema_dir, "refiner.output.schema.json");
        let mut new_ideas: Vec<Idea> = Vec::new();
        let ghost mut patches: Seq<Option<IdeaDraft>> = Seq::empty();
        let mut k: usize = 0;
        while k < chosen.len()
            invariant
                k <= chosen.len(),
                chosen@.len() > 0,
                chosen@ == refine_choice(state.ideas@, self.top_k),
                new_ideas@.len() <= k,
                patches.len() == k,
                is_offspring(new_ideas@, state.ideas@, chosen@, patches, state.iteration, k as nat),
                forall|j: int|
                    0 <= j < chosen@.len() ==> (#[trigger] chosen@[j]) < state.ideas@.len(),
                forall|j: int|
                    0 <= j < new_ideas@.len() ==> is_refined_child(
                        #[trigger] new_ideas@[j],
                        state.ideas@,
                        chosen@,
                        state.iteration,
                    ),
            decreases chosen.len() - k,
        {
            let parent = &state.ideas[chosen[k]];
            let task = RefinePhase::task(parent);
            let output = match ctx.llm.generate_json(task, schema_path.as_str()) {
                Ok(output) => output,
                Err(error) => {
                    return Err(PhaseError::Llm(error));
                },
            };
            let ghost held = new_ideas@;
            let ghost before = patches;
            proof {
                patches = patches.push(output.patch);
                lemma_offspring_reads_prefix(
                    held,
                    state.ideas@,
                    chosen@,
                    before,
                    patches,
                    state.iteration,
                    k as nat,
                );
            }
            match RefinePhase::refined(parent, &output, state.iteration) {
                Some(child) => {
                    proof {
                        assert(child.parents@ == seq![state.ideas@[chosen@[k as int] as int].id]);
                    }
                    new_ideas.push(child);
                    proof {
                        assert(new_ideas@.drop_last() == held);
                    }
                },
                None => {},
            }
            k += 1;
        }
        let count = new_ideas.len();
        let ghost before = state;
        let next = GeneratePhase::absorb(state, new_ideas);
        let event = RefinePhase::event(&next, count);
        match stored(ctx.storage.append_event(&next.run_id, &event)) {
            Ok(()) => {},
            Err(error) => {
                return Err(error);
            },
        }
        proof {
            assert(next.ideas@.take(before.ideas@.len() as int) == before.ideas@);
            assert(next.ideas@.skip(before.ideas@.len() as int) == new_ideas@);
            assert(patches.len() == chosen@.len() && is_offspring(
                next.ideas@.skip(before.ideas@.len() as int),
                before.ideas@,
                chosen@,
                patches,
                before.iteration,
                chosen@.len(),
            ));
        }
        Ok(next)
    }
}

/// Ranks the survivors and composes the final result.
pub struct FinalPhase;

/// How many runners-up a ranking of `ranked` ideas has: all behind the
/// winner, but no more than four.
pub open spec fn runners_up_count(ranked: nat) -> nat {
    if ranked == 0 {
        0
    } else if ranked - 1 <= 4 {
        (ranked - 1) as nat
    } else {
        4
    }
}

/// The three reasons given for the winner: its overall score, its
/// feasibility, and its risk as a benefit (ten points minus the raw risk).
pub open spec fn winning_reasons(best: Idea) -> Seq<Seq<char>> {
    seq![
        "Highest overall score: "@ + two_decimals(best.overall_score->0 as int),
        "Feasibility: "@ + one_decimal(best.scores.feasibility as int),
        "Low risk: "@ + one_decimal(inverted_risk(best.scores.risk)),
    ]
}

/// `result` is the final result of the ideas `ideas` of the run `run_id`:
/// the best of the ranked ideas as the winner, with its reasons, and the up
/// to four next as runners-up, in rank order.
pub open spec fn is_final_result(result: FinalResult, run_id: u128, ideas: Seq<Idea>) -> bool {
    let ranked = score_ranking(ideas);
    let best = ideas[ranked[0] as int];
    &&& ranked.len() > 0
    &&& result.run_id == run_id
    &&& result.best.idea_id == best.id
    &&& result.best.title == best.title
    &&& result.best.summary == best.summary
    &&& result.best.facets == best.facets
    &&& result.best.scores == best.scores
    &&& result.best.overall_score == best.overall_score->0
    &&& result.best.why_won@.map_values(|s: String| s@) == winning_reasons(best)
    &&& result.runners_up@.len() == runners_up_count(ranked.len())
    &&& forall|k: int|
        0 <= k < result.runners_up@.len() ==> {
            let idea = ideas[ranked[k + 1] as int];
            &&& (#[trigger] result.runners_up@[k]).idea_id == idea.id
            &&& result.runners_up@[k].title == idea.title
            &&& result.runners_up@[k].overall_score == idea.overall_score->0
        }
}

impl FinalPhase {
    /// The final result of the state: fails where no active idea has an
    /// overall score.
    pub fn compose(state: &State) -> (result: Result<FinalResult, PhaseError>)
        ensures
            score_ranking(state.ideas@).len() == 0 <==> result is Err,
            result is Err ==> result == Err::<FinalResult, PhaseError>(PhaseError::NoActiveIdeas),
            result is Ok ==> is_final_result(result->Ok_0, state.run_id, state.ideas@),
    {
        let ranked = rank_by_score(&state.ideas);
        if ranked.len() == 0 {
            return Err(PhaseError::NoActiveIdeas);
        }
        let best = &state.ideas[ranked[0]];
        let overall: i64 = match best.overall_score {
            Some(value) => value,
            None => 0,
        };
        let mut runners_up: Vec<RunnerUp> = Vec::new();
        let mut k: usize = 1;
        while k < ranked.len() && k <= 4
            invariant
                1 <= k <= ranked.len(),
                k <= 5,
                ranked@ == score_ranking(state.ideas@),
                forall|j: int|
                    0 <= j < ranked@.len() ==> (#[trigger] ranked@[j]) < state.ideas@.len()
                        && state.ideas@[ranked@[j] as int].is_ranked(),
                runners_up@.len() == k - 1,
                forall|j: int|
                    0 <= j < runners_up@.len() ==> {
                        let idea = state.ideas@[ranked@[j + 1] as int];
                        &&& (#[trigger] runners_up@[j]).idea_id == idea.id
                        &&& runners_up@[j].title == idea.title
                        &&& runners_up@[j].overall_score == idea.overall_score->0
                    },
            decreases ranked.len() - k,
        {
            let idea = &state.ideas[ranked[k]];
            let score: i64 = match idea.overall_score {
                Some(value) => value,
                None => 0,
            };
            runners_up.push(RunnerUp { idea_id: idea.id, title: idea.title.clone(), overall_score: score });
            k += 1;
        }
        let mut why_won: Vec<String> = Vec::new();
        why_won.push(join("Highest overall score: ", two_decimals_text(overall).as_str()));
        why_won.push(join("Feasibility: ", one_decimal_text(best.scores.feasibility as i64).as_str()));
        why_won.push(join("Low risk: ", one_decimal_text(SCORE_MAX as i64 - best.scores.risk as i64).as_str()));
        proof {
            assert(why_won@.map_values(|s: String| s@) =~= winning_reasons(*best));
        }
        Ok(
            FinalResult {
                run_id: state.run_id,
                best: FinalBest {
                    idea_id: best.id,
                    title: best.title.clone(),
                    summary: best.summary.clone(),
                    facets: best.facets.duplicate(),
                    scores: best.scores,
                    overall_score: overall,
                    why_won,
                },
                runners_up,
            },
        )
    }
}

impl Phase for FinalPhase {
    /// Every state.
    open spec fn accepts(&self, state: State) -> bool {
        true
    }

    /// The name of the phase: "final".
    fn name(&self) -> (name: &str)
        ensures
            name@ == "final"@,
    {
        "final"
    }

    /// Composes the final result and hands it to the store; the state comes
    /// back as it is. Fails where no active idea has an overall score, and
    /// where the store fails.
    fn run<S: Storage, L: LlmProvider>(&self, state: State, ctx: &PhaseContext<S, L>) -> (result:
        Result<State, PhaseError>)
        ensures
            score_ranking(state.ideas@).len() == 0 ==> result == Err::<State, PhaseError>(
                PhaseError::NoActiveIdeas,
            ),
            result is Ok ==> result->Ok_0 == state,
            result is Err ==> (result->Err_0 is Storage || (result->Err_0 is NoActiveIdeas
                && score_ranking(state.ideas@).len() == 0)),
    {
        let final_result = match FinalPhase::compose(&state) {
            Ok(composed) => composed,
            Err(error) => {
                return Err(error);
            },
        };
        match stored(ctx.storage.save_final(&final_result)) {
            Ok(()) => {},
            Err(error) => {
                return Err(error);
            },
        }
        Ok(state)
    }
}

} // verus!
