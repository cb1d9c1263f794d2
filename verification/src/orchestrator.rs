//! The evolutionary loop: rounds of the pipeline until a stop condition
//! holds, then the final phase.

use vstd::prelude::*;
use crate::config::RunConfig;
use crate::data::Event;
use crate::data::EventPayload;
use crate::data::EventType;
use crate::data::State;
use crate::data::StopReason;
use crate::llm::LlmProvider;
use crate::phase::CriticPhase;
use crate::phase::FinalPhase;
use crate::phase::GeneratePhase;
use crate::phase::is_judged;
use crate::phase::is_refined;
use crate::phase::is_selected;
use crate::phase::is_round_failure;
use crate::phase::is_topped_up;
use crate::phase::Phase;
use crate::phase::PhaseContext;
use crate::phase::PhaseError;
use crate::phase::RefinePhase;
use crate::phase::SelectPhase;
use crate::scoring::evaluate_stop;
use crate::scoring::score_ranking;
use crate::scoring::stop_reason;
use crate::storage::Storage;

verus! {

/// Where a run stands.
#[derive(Debug, Clone, Copy, PartialEq, Eq, Structural)]
pub enum RunStatus {
    Running,
    StoppedByThreshold,
    StoppedByStagnation,
    StoppedByMaxRounds,
    Finalized,
}

/// The stop condition that holds for the state under the configuration, if
/// one does: the threshold before stagnation, stagnation before the round
/// limit.
pub open spec fn stop_of(state: State, config: RunConfig) -> Option<StopReason> {
    stop_reason(
        state.best_score,
        config.score_threshold,
        state.stagnation_counter,
        config.stagnation_patience,
        state.iteration,
        config.max_rounds,
    )
}

/// Where the run stands once a round has left it in `state`.
pub open spec fn status_of(state: State, config: RunConfig) -> RunStatus {
    match stop_of(state, config) {
        Some(StopReason::Threshold) => RunStatus::StoppedByThreshold,
        Some(StopReason::Stagnation) => RunStatus::StoppedByStagnation,
        Some(StopReason::MaxRounds) => RunStatus::StoppedByMaxRounds,
        None => RunStatus::Running,
    }
}

/// The stop condition that holds after a round, if one does.
pub fn check_stop(state: &State, config: &RunConfig) -> (reason: Option<StopReason>)
    ensures
        reason == stop_of(*state, *config),
{
    evaluate_stop(
        state.best_score,
        config.score_threshold,
        state.stagnation_counter,
        config.stagnation_patience,
        state.iteration,
        config.max_rounds,
    )
}

/// Where the run stands once a round has left it in `state`: running on, or
/// stopped by the first stop condition that holds.
pub fn status_after_round(state: &State, config: &RunConfig) -> (status: RunStatus)
    ensures
        status == status_of(*state, *config),
        status != RunStatus::Finalized,
{
    match check_stop(state, config) {
        Some(StopReason::Threshold) => RunStatus::StoppedByThreshold,
        Some(StopReason::Stagnation) => RunStatus::StoppedByStagnation,
        Some(StopReason::MaxRounds) => RunStatus::StoppedByMaxRounds,
        None => RunStatus::Running,
    }
}

/// The audit event of the stop of the loop in `state`: of the kind "stopped",
/// for the round of the state, carrying the reason of the stop, the best
/// score and the identifier of the best idea as the state records them.
pub fn stop_event(state: &State, reason: StopReason) -> (event: Event)
    ensures
        event.iteration == state.iteration,
        event.event_type == EventType::Stopped,
        event.payload == (EventPayload::Stop {
            reason,
            best_score: state.best_score,
            best_id: state.best_idea_id,
        }),
{
    Event::new(
        state.iteration,
        EventType::Stopped,
        EventPayload::Stop { reason, best_score: state.best_score, best_id: state.best_idea_id },
    )
}

/// Hands the state to the store. Whether that succeeds is the store's to
/// decide; a failure of the store comes back as a failure of the phase that
/// names the store as its cause.
fn persist<S: Storage>(storage: &S, state: &State) -> (result: Result<(), PhaseError>)
    ensures
        result is Err ==> result->Err_0 is Storage,
{
    match storage.save_state(state) {
        Ok(()) => Ok(()),
        Err(error) => Err(PhaseError::Storage(error)),
    }
}

/// The state with its round counter raised by one.
pub open spec fn counted(state: State) -> State {
    State { iteration: (state.iteration + 1) as u32, ..state }
}

/// `next` is `state` one round later: the round is counted, and the four
/// phases have run in their order, generate, critic, select and refine, each
/// on what the one before it left.
pub open spec fn is_next_round(next: State, state: State, config: RunConfig, refine_top_k: usize) -> bool {
    exists|generated: State, judged: State, selected: State|
        {
            &&& #[trigger] is_topped_up(generated, counted(state))
            &&& #[trigger] is_judged(judged, generated, config.scoring_weights)
            &&& #[trigger] is_selected(
                selected,
                judged,
                config.elite_count as usize,
                config.population_size as usize,
            )
            &&& is_refined(next, selected, refine_top_k)
        }
}

/// A round counts itself, keeps the run and the ideas there were, and
/// leaves the stagnation counter at 0 or one higher than it was.
pub proof fn lemma_round_bookkeeping(next: State, state: State, config: RunConfig, refine_top_k: usize)
    requires
        state.iteration < u32::MAX,
        is_next_round(next, state, config, refine_top_k),
    ensures
        next.run_id == state.run_id,
        next.iteration == state.iteration + 1,
        next.ideas@.len() >= state.ideas@.len(),
        next.stagnation_counter == 0 || next.stagnation_counter == state.stagnation_counter + 1,
{
    let (generated, judged, selected) = choose|generated: State, judged: State, selected: State|
        {
            &&& #[trigger] is_topped_up(generated, counted(state))
            &&& #[trigger] is_judged(judged, generated, config.scoring_weights)
            &&& #[trigger] is_selected(
                selected,
                judged,
                config.elite_count as usize,
                config.population_size as usize,
            )
            &&& is_refined(next, selected, refine_top_k)
        };
    let kept = choose|kept: Seq<u128>|
        #[trigger] crate::scoring::is_selection(
            judged.ideas@,
            config.elite_count as usize,
            config.population_size as usize,
            kept,
        ) && crate::phase::is_settled(selected, judged, kept);
}

/// Runs one round: counts it, then runs generate, critic, select and refine
/// in this order, handing the state to the store after each. Fails as soon
/// as a phase or the store fails: by a failure of the generator or the store,
/// or by the failure of the scoring where the weights are all zero. A round
/// never fails for want of ideas to rank.
pub fn run_round<S: Storage, L: LlmProvider>(
    state: State,
    ctx: &PhaseContext<S, L>,
    refine_top_k: usize,
) -> (result: Result<State, PhaseError>)
    requires
        state.iteration < u32::MAX,
        state.stagnation_counter < u32::MAX,
    ensures
        result is Ok ==> is_next_round(result->Ok_0, state, *ctx.config, refine_top_k),
        result is Ok ==> result->Ok_0.run_id == state.run_id && result->Ok_0.iteration
            == state.iteration + 1 && (result->Ok_0.stagnation_counter == 0
            || result->Ok_0.stagnation_counter == state.stagnation_counter + 1),
        result is Err ==> is_round_failure(result->Err_0, ctx.config.scoring_weights),
{
    let mut current = state;
    current.iteration = current.iteration + 1;
    assert(current == counted(state));
    let generated = match GeneratePhase.run(current, ctx) {
        Ok(next) => next,
        Err(error) => {
            return Err(error);
        },
    };
    match persist(ctx.storage, &generated) {
        Ok(()) => {},
        Err(error) => {
            return Err(error);
        },
    }
    let scored = match CriticPhase.run(generated, ctx) {
        Ok(next) => next,
        Err(error) => {
            return Err(error);
        },
    };
    match persist(ctx.storage, &scored) {
        Ok(()) => {},
        Err(error) => {
            return Err(error);
        },
    }
    let selected = match SelectPhase.run(scored, ctx) {
        Ok(next) => next,
        Err(error) => {
            return Err(error);
        },
    };
    match persist(ctx.storage, &selected) {
        Ok(()) => {},
        Err(error) => {
            return Err(error);
        },
    }
    let refine = RefinePhase { top_k: refine_top_k };
    let refined = match refine.run(selected, ctx) {
        Ok(next) => next,
        Err(error) => {
            return Err(error);
        },
    };
    match persist(ctx.storage, &refined) {
        Ok(()) => {},
        Err(error) => {
            return Err(error);
        },
    }
    proof {
        assert(is_topped_up(generated, counted(state)) && is_judged(
            scored,
            generated,
            ctx.config.scoring_weights,
        ) && is_selected(
            selected,
            scored,
            ctx.config.elite_count as usize,
            ctx.config.population_size as usize,
        ) && is_refined(refined, selected, refine_top_k));
        lemma_round_bookkeeping(refined, state, *ctx.config, refine_top_k);
    }
    Ok(refined)
}

/// The failure is one that a run from `state` can end in: a failure that a
/// round can end in, or the failure of the final phase for want of an active
/// idea with an overall score in the state that the last round left.
pub open spec fn is_run_failure(
    error: PhaseError,
    state: State,
    config: RunConfig,
    refine_top_k: usize,
) -> bool {
    ||| is_round_failure(error, config.scoring_weights)
    ||| error is NoActiveIdeas && exists|last: State, rounds: nat|
        {
            &&& rounds >= 1
            &&& #[trigger] is_run_of(last, state, config, refine_top_k, rounds)
            &&& stop_of(last, config) is Some
            &&& score_ranking(last.ideas@).len() == 0
        }
}

/// `last` is `state` after `rounds` rounds of a run that went on after each
/// round but the last: no stop condition held in between.
pub open spec fn is_run_of(
    last: State,
    state: State,
    config: RunConfig,
    refine_top_k: usize,
    rounds: nat,
) -> bool
    decreases rounds,
{
    if rounds == 0 {
        last == state
    } else {
        exists|before: State|
            {
                &&& is_run_of(before, state, config, refine_top_k, (rounds - 1) as nat)
                &&& rounds > 1 ==> stop_of(before, config) is None
                &&& #[trigger] is_next_round(last, before, config, refine_top_k)
            }
    }
}

/// A run that has not stopped goes on by one more round.
proof fn lemma_run_goes_on(
    last: State,
    before: State,
    state: State,
    config: RunConfig,
    refine_top_k: usize,
    rounds: nat,
)
    requires
        is_run_of(before, state, config, refine_top_k, rounds),
        rounds > 0 ==> stop_of(before, config) is None,
        is_next_round(last, before, config, refine_top_k),
    ensures
        is_run_of(last, state, config, refine_top_k, rounds + 1),
{
    assert(is_run_of(before, state, config, refine_top_k, ((rounds + 1) - 1) as nat));
}

/// Runs the evolutionary loop from `state`: round after round until a stop
/// condition holds after a round, then logs the stop and runs the final
/// phase once. Returns the state as the last round left it and the reason of
/// the stop. Fails as soon as a phase or the store fails: by a failure of
/// the generator or the store, by the failure of the scoring where the
/// weights are all zero, or because the last round left no active idea with
/// an overall score to rank.
///
/// At least one round is run; a round limit that the state has reached
/// already stops the loop after that one round.
pub fn run_evolution<S: Storage, L: LlmProvider>(
    state: State,
    ctx: &PhaseContext<S, L>,
    refine_top_k: usize,
) -> (result: Result<(State, StopReason), PhaseError>)
    requires
        state.iteration < u32::MAX,
        state.stagnation_counter < u32::MAX,
    ensures
        result is Ok ==> {
            let (last, reason) = result->Ok_0;
            &&& stop_of(last, *ctx.config) == Some(reason)
            &&& is_run_of(
                last,
                state,
                *ctx.config,
                refine_top_k,
                (last.iteration - state.iteration) as nat,
            )
            &&& last.run_id == state.run_id
            &&& last.iteration > state.iteration
            &&& (state.iteration + 1 >= ctx.config.max_rounds ==> last.iteration == state.iteration
                + 1)
            &&& last.iteration <= ctx.config.max_rounds || last.iteration == state.iteration + 1
        },
        result is Err ==> is_run_failure(result->Err_0, state, *ctx.config, refine_top_k),
{
    let ghost start = state;
    let mut current = match run_round(state, ctx, refine_top_k) {
        Ok(next) => next,
        Err(error) => {
            return Err(error);
        },
    };
    proof {
        lemma_run_goes_on(current, start, start, *ctx.config, refine_top_k, 0);
    }
    let mut stop = check_stop(&current, ctx.config);
    while stop.is_none()
        invariant
            start == state,
            stop == stop_of(current, *ctx.config),
            is_run_of(
                current,
                state,
                *ctx.config,
                refine_top_k,
                (current.iteration - state.iteration) as nat,
            ),
            current.run_id == state.run_id,
            current.iteration > state.iteration,
            state.iteration + 1 >= ctx.config.max_rounds ==> current.iteration == state.iteration
                + 1,
            current.iteration <= ctx.config.max_rounds || current.iteration == state.iteration + 1,
        decreases
            (if stop is None {
                ctx.config.max_rounds - current.iteration
            } else {
                0
            }),
    {
        let ghost before = current;
        current = match run_round(current, ctx, refine_top_k) {
            Ok(next) => next,
            Err(error) => {
                return Err(error);
            },
        };
        proof {
            lemma_run_goes_on(
                current,
                before,
                start,
                *ctx.config,
                refine_top_k,
                (before.iteration - start.iteration) as nat,
            );
        }
        stop = check_stop(&current, ctx.config);
    }
    let reason = match stop {
        Some(reason) => reason,
        None => StopReason::MaxRounds,
    };
    let event = stop_event(&current, reason);
    match ctx.storage.append_event(&current.run_id, &event) {
        Ok(()) => {},
        Err(error) => {
            return Err(PhaseError::Storage(error));
        },
    }
    let ghost left = current;
    match FinalPhase.run(current, ctx) {
        Ok(last) => Ok((last, reason)),
        Err(error) => {
            proof {
                if error is NoActiveIdeas {
                    let rounds = (left.iteration - start.iteration) as nat;
                    assert(rounds >= 1 && is_run_of(left, start, *ctx.config, refine_top_k, rounds)
                        && stop_of(left, *ctx.config) is Some && score_ranking(left.ideas@).len()
                        == 0);
                }
            }
            Err(error)
        },
    }
}

} // verus!
