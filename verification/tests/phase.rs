use std::sync::Mutex;

use evoidea::config::RunConfig;
use evoidea::config::ScoringWeights;
use evoidea::data::Event;
use evoidea::data::EventPayload;
use evoidea::data::EventType;
use evoidea::data::Facets;
use evoidea::data::FinalResult;
use evoidea::data::Idea;
use evoidea::data::IdeaStatus;
use evoidea::data::Origin;
use evoidea::data::Scores;
use evoidea::data::State;
use evoidea::data::StopReason;
use evoidea::llm::IdeaDraft;
use evoidea::llm::LlmError;
use evoidea::llm::LlmOutput;
use evoidea::llm::LlmProvider;
use evoidea::llm::LlmTask;
use evoidea::llm::MockLlmProvider;
use evoidea::orchestrator::check_stop;
use evoidea::orchestrator::run_evolution;
use evoidea::orchestrator::run_round;
use evoidea::orchestrator::status_after_round;
use evoidea::orchestrator::stop_event;
use evoidea::orchestrator::RunStatus;
use evoidea::phase::count_active;
use evoidea::phase::find_best;
use evoidea::phase::CriticPhase;
use evoidea::phase::FinalPhase;
use evoidea::phase::GeneratePhase;
use evoidea::phase::Phase;
use evoidea::phase::PhaseContext;
use evoidea::phase::PhaseError;
use evoidea::phase::RefinePhase;
use evoidea::phase::SelectPhase;
use evoidea::scoring::ScoringError;
use evoidea::storage::Storage;
use evoidea::storage::StorageError;

struct MemoryStorage {
    events: Mutex<Vec<Event>>,
    finals: Mutex<Vec<FinalResult>>,
    states: Mutex<Vec<State>>,
    fail: bool,
}

impl MemoryStorage {
    fn new() -> Self {
        MemoryStorage {
            events: Mutex::new(Vec::new()),
            finals: Mutex::new(Vec::new()),
            states: Mutex::new(Vec::new()),
            fail: false,
        }
    }

    fn failing() -> Self {
        MemoryStorage { fail: true, ..MemoryStorage::new() }
    }

    fn outcome(&self) -> Result<(), StorageError> {
        if self.fail {
            Err(StorageError { message: "disk full".into() })
        } else {
            Ok(())
        }
    }

    fn events(&self) -> Vec<Event> {
        self.events.lock().unwrap().clone()
    }
}

impl Storage for MemoryStorage {
    fn init_run(&self, config: &RunConfig) -> Result<u128, StorageError> {
        self.outcome()?;
        Ok(config.run_id)
    }

    fn load_config(&self, _run_id: &u128) -> Result<RunConfig, StorageError> {
        Err(StorageError { message: "no config kept".into() })
    }

    fn load_state(&self, run_id: &u128) -> Result<State, StorageError> {
        self.outcome()?;
        let states = self.states.lock().unwrap();
        match states.last() {
            Some(state) => Ok(state.clone()),
            None => Ok(State::new(*run_id)),
        }
    }

    fn save_state(&self, state: &State) -> Result<(), StorageError> {
        self.outcome()?;
        self.states.lock().unwrap().push(state.clone());
        Ok(())
    }

    fn append_event(&self, _run_id: &u128, event: &Event) -> Result<(), StorageError> {
        self.outcome()?;
        self.events.lock().unwrap().push(*event);
        Ok(())
    }

    fn save_final(&self, result: &FinalResult) -> Result<(), StorageError> {
        self.outcome()?;
        self.finals.lock().unwrap().push(result.clone());
        Ok(())
    }
}

struct SilentLlm;

impl LlmProvider for SilentLlm {
    fn generate_json(&self, _task: LlmTask, _schema_path: &str) -> Result<LlmOutput, LlmError> {
        Ok(LlmOutput { ideas: None, patches: None, patch: None, idea: None, mutation_type: None })
    }
}

struct BrokenLlm;

impl LlmProvider for BrokenLlm {
    fn generate_json(&self, _task: LlmTask, _schema_path: &str) -> Result<LlmOutput, LlmError> {
        Err(LlmError::Provider { message: "offline".into() })
    }
}

struct RecordingLlm {
    inner: MockLlmProvider,
    schemas: Mutex<Vec<String>>,
    refined: Mutex<Vec<(u128, String)>>,
}

impl LlmProvider for RecordingLlm {
    fn generate_json(&self, task: LlmTask, schema_path: &str) -> Result<LlmOutput, LlmError> {
        self.schemas.lock().unwrap().push(schema_path.to_string());
        if let LlmTask::Refine { idea_id, judge_notes, .. } = &task {
            self.refined.lock().unwrap().push((*idea_id, judge_notes.clone()));
        }
        self.inner.generate_json(task, schema_path)
    }
}

fn test_facets() -> Facets {
    Facets {
        audience: "test".into(),
        jtbd: "test".into(),
        differentiator: "test".into(),
        monetization: "test".into(),
        distribution: "test".into(),
        risks: "test".into(),
    }
}

fn test_config() -> RunConfig {
    RunConfig::new(
        "Test prompt".into(),
        "mock".into(),
        6,
        12,
        4,
        8700,
        2,
        "runs".into(),
    )
}

fn scored(title: &str, score: Option<i64>) -> Idea {
    let mut idea = Idea::new(title.into(), "".into(), test_facets(), 1, Origin::Generated);
    idea.overall_score = score;
    idea
}

#[test]
fn test_generate_phase() {
    let config = test_config();
    let storage = MemoryStorage::new();
    let llm = MockLlmProvider::new();
    let run_id = storage.init_run(&config).unwrap();
    let state = State::new(run_id);

    let ctx = PhaseContext {
        config: &config,
        storage: &storage,
        llm: &llm,
        schema_dir: "schemas",
    };

    let phase = GeneratePhase;
    let new_state = phase.run(state, &ctx).unwrap();

    assert!(!new_state.ideas.is_empty());
    assert!(new_state.ideas.len() <= config.population_size as usize);
}

#[test]
fn test_generate_phase_fills_the_deficit_only() {
    let config = test_config();
    let storage = MemoryStorage::new();
    let llm = MockLlmProvider::new();
    let ctx = PhaseContext { config: &config, storage: &storage, llm: &llm, schema_dir: "schemas" };

    let mut state = State::new(config.run_id);
    state.iteration = 3;
    for k in 0..5 {
        state.ideas.push(scored(&format!("old {}", k), Some(1000)));
    }
    state.ideas[1].status = IdeaStatus::Archived;
    assert_eq!(count_active(&state.ideas), 4);
    match GeneratePhase::task(&state, &config) {
        Some(LlmTask::Generate { prompt, count }) => {
            assert_eq!(prompt, "Test prompt");
            assert_eq!(count, 8);
        }
        other => panic!("unexpected task {:?}", other),
    }
    let before = state.ideas.clone();
    let next = GeneratePhase.run(state, &ctx).unwrap();
    assert_eq!(next.ideas.len(), 13);
    assert_eq!(&next.ideas[..5], &before[..]);
    for idea in &next.ideas[5..] {
        assert_eq!(idea.gen, 3);
        assert_eq!(idea.origin, Origin::Generated);
        assert_eq!(idea.status, IdeaStatus::Active);
        assert!(idea.parents.is_empty());
        assert_eq!(idea.scores, Scores::default());
        assert_eq!(idea.overall_score, None);
    }
    assert_eq!(next.ideas[5].title, "Mock Idea 0 (gen 0)");
    let events = storage.events();
    assert_eq!(events.len(), 1);
    assert_eq!(events[0].event_type, EventType::Generated);
    assert_eq!(events[0].iteration, 3);
    assert_eq!(events[0].payload, EventPayload::Count { count: 8 });

    // A full population: nothing is asked, nothing is logged.
    let silent = BrokenLlm;
    let ctx = PhaseContext { config: &config, storage: &storage, llm: &silent, schema_dir: "schemas" };
    let held = next.ideas.clone();
    let same = GeneratePhase.run(next, &ctx).unwrap();
    assert_eq!(same.ideas, held);
    assert_eq!(storage.events().len(), 1);
    assert!(GeneratePhase::task(&same, &config).is_none());
    assert_eq!(GeneratePhase.name(), "generate");
}

#[test]
fn test_generate_phase_failures() {
    let config = test_config();
    let storage = MemoryStorage::new();
    let state = State::new(config.run_id);
    let silent = SilentLlm;
    let ctx = PhaseContext { config: &config, storage: &storage, llm: &silent, schema_dir: "schemas" };
    assert_eq!(
        GeneratePhase.run(state.clone(), &ctx).err(),
        Some(PhaseError::Llm(LlmError::MissingIdeas))
    );
    let broken = BrokenLlm;
    let ctx = PhaseContext { config: &config, storage: &storage, llm: &broken, schema_dir: "schemas" };
    assert_eq!(
        GeneratePhase.run(state.clone(), &ctx).err(),
        Some(PhaseError::Llm(LlmError::Provider { message: "offline".into() }))
    );
    let failing = MemoryStorage::failing();
    let llm = MockLlmProvider::new();
    let ctx = PhaseContext { config: &config, storage: &failing, llm: &llm, schema_dir: "schemas" };
    assert_eq!(
        GeneratePhase.run(state, &ctx).err(),
        Some(PhaseError::Storage(StorageError { message: "disk full".into() }))
    );
}

#[test]
fn test_critic_phase() {
    let config = test_config();
    let storage = MemoryStorage::new();
    let llm = MockLlmProvider::new();
    let run_id = storage.init_run(&config).unwrap();
    let mut state = State::new(run_id);

    state.ideas.push(Idea::new(
        "Test".into(),
        "Summary".into(),
        test_facets(),
        1,
        Origin::Generated,
    ));

    let ctx = PhaseContext {
        config: &config,
        storage: &storage,
        llm: &llm,
        schema_dir: "schemas",
    };

    let phase = CriticPhase;
    let new_state = phase.run(state, &ctx).unwrap();

    assert!(new_state.ideas[0].overall_score.is_some());
}

#[test]
fn test_critic_phase_rescores_every_active_idea() {
    let mut config = test_config();
    config.scoring_weights = ScoringWeights {
        feasibility: 2_000_000_000,
        speed_to_value: 0,
        differentiation: 0,
        market_size: 0,
        distribution: 0,
        moats: 0,
        risk: 2_000_000_000,
        clarity: 0,
    };
    let storage = MemoryStorage::new();
    let llm = MockLlmProvider::new();
    let ctx = PhaseContext { config: &config, storage: &storage, llm: &llm, schema_dir: "schemas" };

    let mut state = State::new(config.run_id);
    state.iteration = 2;
    let mut old = scored("scored before", Some(1234));
    old.scores.feasibility = 6000;
    old.scores.risk = 1000;
    let mut gone = scored("archived", None);
    gone.status = IdeaStatus::Archived;
    state.ideas.push(old);
    state.ideas.push(gone);
    state.ideas.push(scored("new", None));
    state.ideas.push(scored("newer", None));

    match CriticPhase::task(&state) {
        Some(LlmTask::Critic { ideas }) => {
            assert_eq!(ideas.len(), 2);
            assert_eq!(ideas[0], (state.ideas[2].id, "new".to_string(), "".to_string()));
            assert_eq!(ideas[1].0, state.ideas[3].id);
        }
        other => panic!("unexpected task {:?}", other),
    }
    let next = CriticPhase.run(state, &ctx).unwrap();
    // (6 + (10 - 1)) / 2 under the new weights, not the old 1.234.
    assert_eq!(next.ideas[0].overall_score, Some(7500));
    assert_eq!(next.ideas[1].overall_score, None);
    // The mock's scores for the first of the batch: feasibility 7, risk 5.
    assert_eq!(next.ideas[2].overall_score, Some(6000));
    // For the second: feasibility 7.3, risk 4.8.
    assert_eq!(next.ideas[3].overall_score, Some(6250));
    assert!(next.ideas[2].judge_notes.is_some());
    let events = storage.events();
    assert_eq!(events.len(), 1);
    assert_eq!(events[0].event_type, EventType::Scored);
    assert_eq!(events[0].payload, EventPayload::Count { count: 2 });

    // Every active idea is scored: nothing is asked.
    let broken = BrokenLlm;
    let ctx = PhaseContext { config: &config, storage: &storage, llm: &broken, schema_dir: "schemas" };
    assert!(CriticPhase::task(&next).is_none());
    let held = next.ideas.clone();
    assert_eq!(CriticPhase.run(next, &ctx).unwrap().ideas, held);
    assert_eq!(CriticPhase.name(), "critic");
}

#[test]
fn test_critic_phase_failures() {
    let mut config = test_config();
    let storage = MemoryStorage::new();
    let mut state = State::new(config.run_id);
    state.ideas.push(scored("new", None));
    let silent = SilentLlm;
    let ctx = PhaseContext { config: &config, storage: &storage, llm: &silent, schema_dir: "schemas" };
    assert_eq!(
        CriticPhase.run(state.clone(), &ctx).err(),
        Some(PhaseError::Llm(LlmError::MissingPatches))
    );
    config.scoring_weights = ScoringWeights {
        feasibility: 0,
        speed_to_value: 0,
        differentiation: 0,
        market_size: 0,
        distribution: 0,
        moats: 0,
        risk: 0,
        clarity: 0,
    };
    let llm = MockLlmProvider::new();
    let ctx = PhaseContext { config: &config, storage: &storage, llm: &llm, schema_dir: "schemas" };
    assert_eq!(
        CriticPhase.run(state.clone(), &ctx).err(),
        Some(PhaseError::Scoring(ScoringError::ZeroTotalWeight))
    );
    let output = llm
        .generate_json(LlmTask::Critic { ideas: vec![(state.ideas[0].id, "".into(), "".into())] }, "")
        .unwrap();
    assert_eq!(
        CriticPhase::absorb(state, &output, &config.scoring_weights).err(),
        Some(PhaseError::Scoring(ScoringError::ZeroTotalWeight))
    );
}

#[test]
fn test_select_phase_updates_best() {
    let config = test_config();
    let storage = MemoryStorage::new();
    let llm = MockLlmProvider::new();
    let run_id = storage.init_run(&config).unwrap();
    let mut state = State::new(run_id);

    let mut idea1 = Idea::new("Best".into(), "".into(), test_facets(), 1, Origin::Generated);
    idea1.overall_score = Some(9000);

    let mut idea2 = Idea::new("Second".into(), "".into(), test_facets(), 1, Origin::Generated);
    idea2.overall_score = Some(7000);

    state.ideas.push(idea1);
    state.ideas.push(idea2);

    let ctx = PhaseContext {
        config: &config,
        storage: &storage,
        llm: &llm,
        schema_dir: "schemas",
    };

    let phase = SelectPhase;
    let new_state = phase.run(state, &ctx).unwrap();

    assert!(new_state.best_idea_id.is_some());
    assert_eq!(new_state.best_score, Some(9000));
}

#[test]
fn test_select_phase_archives_and_counts_stagnation() {
    let mut config = test_config();
    config.elite_count = 2;
    config.population_size = 2;
    let storage = MemoryStorage::new();
    let llm = MockLlmProvider::new();
    let ctx = PhaseContext { config: &config, storage: &storage, llm: &llm, schema_dir: "schemas" };

    let mut state = State::new(config.run_id);
    state.iteration = 4;
    state.best_score = Some(9000);
    state.best_idea_id = Some(5);
    state.stagnation_counter = 1;
    state.ideas.push(scored("low", Some(3000)));
    state.ideas.push(scored("top", Some(9000)));
    state.ideas.push(scored("unscored", None));
    state.ideas.push(scored("mid", Some(6000)));
    let mut gone = scored("gone", Some(9900));
    gone.status = IdeaStatus::Archived;
    state.ideas.push(gone);

    let top = state.ideas[1].id;
    let next = SelectPhase.run(state, &ctx).unwrap();
    let status: Vec<IdeaStatus> = next.ideas.iter().map(|i| i.status).collect();
    assert_eq!(
        status,
        vec![
            IdeaStatus::Archived,
            IdeaStatus::Active,
            IdeaStatus::Archived,
            IdeaStatus::Active,
            IdeaStatus::Archived
        ]
    );
    assert_eq!(next.best_idea_id, Some(top));
    assert_eq!(next.best_score, Some(9000));
    // The best score did not rise above the previous best.
    assert_eq!(next.stagnation_counter, 2);
    let events = storage.events();
    assert_eq!(events.len(), 1);
    assert_eq!(events[0].event_type, EventType::Selected);
    assert_eq!(events[0].iteration, 4);
    assert_eq!(
        events[0].payload,
        EventPayload::Selection { selected: 2, archived: 2, best_score: Some(9000) }
    );
    assert_eq!(SelectPhase.name(), "select");
}

#[test]
fn test_select_settle_is_exact() {
    let mut state = State::new(1);
    state.best_score = Some(5000);
    state.best_idea_id = Some(77);
    state.stagnation_counter = 3;
    state.ideas.push(Idea::with_id(10, "a".into(), "".into(), test_facets(), 1, Origin::Generated));
    state.ideas.push(Idea::with_id(11, "b".into(), "".into(), test_facets(), 1, Origin::Generated));
    state.ideas.push(Idea::with_id(12, "c".into(), "".into(), test_facets(), 1, Origin::Generated));
    state.ideas.push(Idea::with_id(13, "d".into(), "".into(), test_facets(), 1, Origin::Generated));
    state.ideas[0].overall_score = Some(6000);
    state.ideas[1].overall_score = Some(8000);
    state.ideas[2].overall_score = Some(8000);
    state.ideas[3].overall_score = Some(9000);

    // Of several best ideas the last one is recorded.
    assert_eq!(find_best(&state.ideas), Some(3));
    let (next, archived) = SelectPhase::settle(state.clone(), &vec![11, 12, 10]);
    assert_eq!(archived, 1);
    assert_eq!(next.ideas[3].status, IdeaStatus::Archived);
    assert_eq!(next.best_idea_id, Some(12));
    assert_eq!(next.best_score, Some(8000));
    assert_eq!(next.stagnation_counter, 0);

    // Nobody survives: the old record stays, and the counter goes up.
    let (next, archived) = SelectPhase::settle(state.clone(), &Vec::new());
    assert_eq!(archived, 4);
    assert_eq!(next.best_idea_id, Some(77));
    assert_eq!(next.best_score, Some(5000));
    assert_eq!(next.stagnation_counter, 4);
    assert_eq!(find_best(&next.ideas), None);

    // A first best ever resets the counter.
    let mut first = state.clone();
    first.best_score = None;
    let (next, _) = SelectPhase::settle(first, &vec![10]);
    assert_eq!(next.best_score, Some(6000));
    assert_eq!(next.stagnation_counter, 0);

    // An improvement resets the counter wherever it stands.
    let mut full = state.clone();
    full.stagnation_counter = u32::MAX;
    let (next, _) = SelectPhase::settle(full, &vec![13]);
    assert_eq!(next.best_score, Some(9000));
    assert_eq!(next.stagnation_counter, 0);
}

#[test]
fn test_refine_phase_refines_the_best_noted_ideas() {
    let config = test_config();
    let storage = MemoryStorage::new();
    let llm = RecordingLlm {
        inner: MockLlmProvider::new(),
        schemas: Mutex::new(Vec::new()),
        refined: Mutex::new(Vec::new()),
    };
    let ctx = PhaseContext { config: &config, storage: &storage, llm: &llm, schema_dir: "schemas" };

    let mut state = State::new(config.run_id);
    state.iteration = 2;
    for (title, score, notes) in [
        ("low", Some(3000), Some("n0")),
        ("no notes", Some(9900), None),
        ("high", Some(9000), Some("n2")),
        ("tie", Some(9000), Some("n3")),
        ("unscored", None, Some("n4")),
    ] {
        let mut idea = scored(title, score);
        idea.summary = format!("{} summary", title);
        idea.judge_notes = notes.map(|n| n.to_string());
        state.ideas.push(idea);
    }
    let mut archived = scored("archived", Some(9999));
    archived.judge_notes = Some("n5".into());
    archived.status = IdeaStatus::Archived;
    state.ideas.push(archived);

    let phase = RefinePhase { top_k: 2 };
    assert_eq!(phase.candidates(&state), vec![2, 3]);
    assert_eq!(RefinePhase { top_k: 9 }.candidates(&state), vec![2, 3, 0, 4]);
    assert!(RefinePhase { top_k: 0 }.candidates(&state).is_empty());

    let before = state.ideas.clone();
    let next = phase.run(state, &ctx).unwrap();
    assert_eq!(next.ideas.len(), 8);
    assert_eq!(&next.ideas[..6], &before[..]);
    let child = &next.ideas[6];
    assert_eq!(child.title, "high (refined)");
    assert_eq!(child.summary, "high summary Improvements based on: n2");
    assert_eq!(child.facets, before[2].facets);
    assert_eq!(child.parents, vec![before[2].id]);
    assert_eq!(child.origin, Origin::Refined);
    assert_eq!(child.gen, 2);
    assert_eq!(child.status, IdeaStatus::Active);
    assert_eq!(child.overall_score, None);
    assert_eq!(child.judge_notes, None);
    assert_eq!(child.scores, Scores::default());
    assert_eq!(next.ideas[7].parents, vec![before[3].id]);
    assert_eq!(
        *llm.refined.lock().unwrap(),
        vec![(before[2].id, "n2".to_string()), (before[3].id, "n3".to_string())]
    );
    let events = storage.events();
    assert_eq!(events.len(), 1);
    assert_eq!(events[0].event_type, EventType::Refined);
    assert_eq!(events[0].payload, EventPayload::Count { count: 2 });
    assert_eq!(phase.name(), "refine");

    // An answer without a patch adds nothing; the event still counts zero.
    let silent = SilentLlm;
    let ctx = PhaseContext { config: &config, storage: &storage, llm: &silent, schema_dir: "schemas" };
    let held = next.ideas.len();
    let same = phase.run(next, &ctx).unwrap();
    assert_eq!(same.ideas.len(), held);
    assert_eq!(storage.events()[1].payload, EventPayload::Count { count: 0 });

    // Nothing to refine: nothing is asked and nothing is logged.
    let broken = BrokenLlm;
    let ctx = PhaseContext { config: &config, storage: &storage, llm: &broken, schema_dir: "schemas" };
    let none = RefinePhase { top_k: 0 }.run(same.clone(), &ctx).unwrap();
    assert_eq!(none.ideas.len(), held);
    assert_eq!(storage.events().len(), 2);
    assert_eq!(
        phase.run(same, &ctx).err(),
        Some(PhaseError::Llm(LlmError::Provider { message: "offline".into() }))
    );
}

#[test]
fn test_refined_idea_falls_back_to_the_parent() {
    let mut parent = scored("parent", Some(1));
    parent.summary = "parent summary".into();
    let output = LlmOutput {
        ideas: None,
        patches: None,
        patch: Some(IdeaDraft { title: None, summary: Some("better".into()), facets: None }),
        idea: None,
        mutation_type: None,
    };
    let child = RefinePhase::refined(&parent, &output, 9).unwrap();
    assert_eq!(child.title, "parent");
    assert_eq!(child.summary, "better");
    assert_eq!(child.facets, parent.facets);
    assert_eq!(child.parents, vec![parent.id]);
    assert_ne!(child.id, parent.id);
    match RefinePhase::task(&parent) {
        LlmTask::Refine { idea_id, title, judge_notes, .. } => {
            assert_eq!(idea_id, parent.id);
            assert_eq!(title, "parent");
            assert_eq!(judge_notes, "");
        }
        other => panic!("unexpected task {:?}", other),
    }
}

#[test]
fn test_final_phase_composes_the_ranking() {
    let config = test_config();
    let storage = MemoryStorage::new();
    let llm = MockLlmProvider::new();
    let ctx = PhaseContext { config: &config, storage: &storage, llm: &llm, schema_dir: "schemas" };

    let mut state = State::new(config.run_id);
    for (k, score) in [5000, 9125, 7000, 9125, 6000, 8000, 1000].iter().enumerate() {
        let mut idea = scored(&format!("idea {}", k), Some(*score));
        idea.summary = format!("summary {}", k);
        idea.scores.feasibility = 8049;
        idea.scores.risk = 2950;
        state.ideas.push(idea);
    }
    state.ideas.push(scored("unscored", None));
    let mut gone = scored("gone", Some(9999));
    gone.status = IdeaStatus::Archived;
    state.ideas.push(gone);

    let result = FinalPhase::compose(&state).unwrap();
    assert_eq!(result.run_id, config.run_id);
    assert_eq!(result.best.idea_id, state.ideas[1].id);
    assert_eq!(result.best.title, "idea 1");
    assert_eq!(result.best.summary, "summary 1");
    assert_eq!(result.best.facets, state.ideas[1].facets);
    assert_eq!(result.best.scores, state.ideas[1].scores);
    assert_eq!(result.best.overall_score, 9125);
    assert_eq!(
        result.best.why_won,
        vec![
            "Highest overall score: 9.12".to_string(),
            "Feasibility: 8.0".to_string(),
            "Low risk: 7.0".to_string(),
        ]
    );
    let runners: Vec<(u128, String, i64)> = result
        .runners_up
        .iter()
        .map(|r| (r.idea_id, r.title.clone(), r.overall_score))
        .collect();
    assert_eq!(
        runners,
        vec![
            (state.ideas[3].id, "idea 3".to_string(), 9125),
            (state.ideas[5].id, "idea 5".to_string(), 8000),
            (state.ideas[2].id, "idea 2".to_string(), 7000),
            (state.ideas[4].id, "idea 4".to_string(), 6000),
        ]
    );

    let held = state.ideas.clone();
    let same = FinalPhase.run(state, &ctx).unwrap();
    assert_eq!(same.ideas, held);
    assert_eq!(storage.finals.lock().unwrap().len(), 1);
    assert_eq!(storage.finals.lock().unwrap()[0].best.title, "idea 1");
    assert_eq!(FinalPhase.name(), "final");

    let mut lonely = State::new(3);
    lonely.ideas.push(scored("only", Some(-250)));
    let result = FinalPhase::compose(&lonely).unwrap();
    assert!(result.runners_up.is_empty());
    assert_eq!(result.best.why_won[0], "Highest overall score: -0.25");
}

#[test]
fn test_final_phase_fails_without_ranked_ideas() {
    let config = test_config();
    let storage = MemoryStorage::new();
    let llm = MockLlmProvider::new();
    let ctx = PhaseContext { config: &config, storage: &storage, llm: &llm, schema_dir: "schemas" };
    let mut state = State::new(config.run_id);
    state.ideas.push(scored("unscored", None));
    let mut gone = scored("gone", Some(9999));
    gone.status = IdeaStatus::Archived;
    state.ideas.push(gone);
    assert_eq!(FinalPhase::compose(&state).err(), Some(PhaseError::NoActiveIdeas));
    assert_eq!(FinalPhase.run(state, &ctx).err(), Some(PhaseError::NoActiveIdeas));
    assert!(storage.finals.lock().unwrap().is_empty());

    let failing = MemoryStorage::failing();
    let ctx = PhaseContext { config: &config, storage: &failing, llm: &llm, schema_dir: "schemas" };
    let mut state = State::new(config.run_id);
    state.ideas.push(scored("fine", Some(1)));
    assert_eq!(
        FinalPhase.run(state, &ctx).err(),
        Some(PhaseError::Storage(StorageError { message: "disk full".into() }))
    );
}

#[test]
fn test_run_of_one_round_end_to_end() {
    let config = RunConfig::new("Test prompt".into(), "mock".into(), 1, 4, 2, 10000, 100, "runs".into());
    for top_k in [0usize, 2] {
        let storage = MemoryStorage::new();
        let llm = RecordingLlm {
            inner: MockLlmProvider::new(),
            schemas: Mutex::new(Vec::new()),
            refined: Mutex::new(Vec::new()),
        };
        let ctx = PhaseContext { config: &config, storage: &storage, llm: &llm, schema_dir: "schemas" };
        let (last, reason) = run_evolution(State::new(config.run_id), &ctx, top_k).unwrap();

        assert_eq!(last.iteration, 1);
        assert_eq!(reason, StopReason::MaxRounds);
        assert_eq!(storage.finals.lock().unwrap().len(), 1);
        let final_result = storage.finals.lock().unwrap()[0].clone();
        assert_eq!(Some(final_result.best.idea_id), last.best_idea_id);
        assert_eq!(Some(final_result.best.overall_score), last.best_score);
        assert_eq!(final_result.runners_up.len(), 1);

        // The four generated ideas are scored; the two best survive.
        assert_eq!(last.ideas.len(), 4 + top_k);
        for idea in &last.ideas[..4] {
            assert!(idea.overall_score.is_some());
        }
        let survivors: Vec<usize> = (0..4)
            .filter(|k| last.ideas[*k].status == IdeaStatus::Active)
            .collect();
        assert_eq!(survivors, vec![2, 3]);
        for idea in &last.ideas {
            if idea.status == IdeaStatus::Active && idea.origin != Origin::Refined {
                assert!(idea.overall_score.is_some());
            }
        }
        // A refinement made in the round is active and waits for the critic
        // of the next round.
        for idea in &last.ideas[4..] {
            assert_eq!(idea.origin, Origin::Refined);
            assert_eq!(idea.status, IdeaStatus::Active);
            assert_eq!(idea.overall_score, None);
        }
        if top_k == 0 {
            assert!(last
                .ideas
                .iter()
                .filter(|i| i.status == IdeaStatus::Active)
                .all(|i| i.overall_score.is_some()));
        }

        let kinds: Vec<EventType> = storage.events().iter().map(|e| e.event_type).collect();
        let mut expected = vec![EventType::Generated, EventType::Scored, EventType::Selected];
        if top_k > 0 {
            expected.push(EventType::Refined);
        }
        expected.push(EventType::Stopped);
        assert_eq!(kinds, expected);
        let stop = *storage.events().last().unwrap();
        assert_eq!(stop.iteration, 1);
        assert_eq!(
            stop.payload,
            EventPayload::Stop {
                reason: StopReason::MaxRounds,
                best_score: last.best_score,
                best_id: last.best_idea_id,
            }
        );
        // The state is handed to the store after each of the four phases.
        assert_eq!(storage.states.lock().unwrap().len(), 4);
        assert_eq!(storage.load_state(&config.run_id).unwrap().ideas.len(), last.ideas.len());
        let schemas = llm.schemas.lock().unwrap().clone();
        assert!(schemas[0].ends_with("generator.output.schema.json"));
        assert!(schemas[0].starts_with("schemas"));
        assert!(schemas[1].ends_with("critic.output.schema.json"));
        if top_k > 0 {
            assert!(schemas[2].ends_with("refiner.output.schema.json"));
        }
    }
}

#[test]
fn test_run_stops_by_threshold_and_by_stagnation() {
    // The best mock idea of a batch of four scores about 7.5 points.
    let config = RunConfig::new("p".into(), "mock".into(), 9, 4, 2, 7000, 100, "runs".into());
    let storage = MemoryStorage::new();
    let llm = MockLlmProvider::new();
    let ctx = PhaseContext { config: &config, storage: &storage, llm: &llm, schema_dir: "schemas" };
    let (last, reason) = run_evolution(State::new(config.run_id), &ctx, 2).unwrap();
    assert_eq!(reason, StopReason::Threshold);
    assert_eq!(last.iteration, 1);
    assert_eq!(status_after_round(&last, &config), RunStatus::StoppedByThreshold);

    let config = RunConfig::new("p".into(), "mock".into(), 9, 4, 2, 10000, 2, "runs".into());
    let storage = MemoryStorage::new();
    let llm = MockLlmProvider::new();
    let ctx = PhaseContext { config: &config, storage: &storage, llm: &llm, schema_dir: "schemas" };
    let (last, reason) = run_evolution(State::new(config.run_id), &ctx, 2).unwrap();
    assert_eq!(reason, StopReason::Stagnation);
    assert!(last.iteration >= 3 && last.iteration < 9);
    assert_eq!(last.stagnation_counter, 2);
    assert_eq!(check_stop(&last, &config), Some(StopReason::Stagnation));
    assert_eq!(storage.finals.lock().unwrap().len(), 1);

    let mut running = State::new(1);
    running.iteration = 1;
    assert_eq!(status_after_round(&running, &config), RunStatus::Running);
    running.iteration = 9;
    assert_eq!(status_after_round(&running, &config), RunStatus::StoppedByMaxRounds);
}

#[test]
fn test_run_round_counts_the_round() {
    let config = test_config();
    let storage = MemoryStorage::new();
    let llm = MockLlmProvider::new();
    let ctx = PhaseContext { config: &config, storage: &storage, llm: &llm, schema_dir: "schemas" };
    let mut state = State::new(config.run_id);
    state.iteration = 4;
    let next = run_round(state, &ctx, 2).unwrap();
    assert_eq!(next.iteration, 5);
    assert_eq!(next.run_id, config.run_id);
    assert_eq!(next.ideas.len(), 14);
    assert!(next.ideas[..12].iter().all(|i| i.gen == 5));

    let failing = MemoryStorage::failing();
    let ctx = PhaseContext { config: &config, storage: &failing, llm: &llm, schema_dir: "schemas" };
    assert!(matches!(
        run_round(State::new(config.run_id), &ctx, 2),
        Err(PhaseError::Storage(_))
    ));
}

#[test]
fn test_run_failures_name_their_cause() {
    // Weights that are all zero: the critic cannot score the new ideas.
    let mut config = test_config();
    config.scoring_weights = ScoringWeights {
        feasibility: 0,
        speed_to_value: 0,
        differentiation: 0,
        market_size: 0,
        distribution: 0,
        moats: 0,
        risk: 0,
        clarity: 0,
    };
    let storage = MemoryStorage::new();
    let llm = MockLlmProvider::new();
    let ctx = PhaseContext { config: &config, storage: &storage, llm: &llm, schema_dir: "schemas" };
    assert_eq!(
        run_round(State::new(config.run_id), &ctx, 2).err(),
        Some(PhaseError::Scoring(ScoringError::ZeroTotalWeight))
    );
    assert_eq!(
        run_evolution(State::new(config.run_id), &ctx, 2).err(),
        Some(PhaseError::Scoring(ScoringError::ZeroTotalWeight))
    );

    // A population of no ideas: the round goes through, the final phase has
    // nothing to rank.
    let config = RunConfig::new("p".into(), "mock".into(), 1, 0, 2, 8700, 2, "runs".into());
    let storage = MemoryStorage::new();
    let ctx = PhaseContext { config: &config, storage: &storage, llm: &llm, schema_dir: "schemas" };
    let next = run_round(State::new(config.run_id), &ctx, 2).unwrap();
    assert!(next.ideas.is_empty());
    assert_eq!(
        run_evolution(State::new(config.run_id), &ctx, 2).err(),
        Some(PhaseError::NoActiveIdeas)
    );
    assert!(storage.finals.lock().unwrap().is_empty());
    assert_eq!(storage.events().last().unwrap().event_type, EventType::Stopped);

    // The generator fails, or the store does.
    let config = test_config();
    let broken = BrokenLlm;
    let ctx = PhaseContext { config: &config, storage: &storage, llm: &broken, schema_dir: "schemas" };
    assert!(matches!(
        run_evolution(State::new(config.run_id), &ctx, 2),
        Err(PhaseError::Llm(LlmError::Provider { .. }))
    ));
    let failing = MemoryStorage::failing();
    let ctx = PhaseContext { config: &config, storage: &failing, llm: &llm, schema_dir: "schemas" };
    assert!(matches!(
        run_evolution(State::new(config.run_id), &ctx, 2),
        Err(PhaseError::Storage(_))
    ));
}

#[test]
fn test_audit_events_carry_what_happened() {
    let mut state = State::new(7);
    state.iteration = 3;
    state.best_score = Some(8125);
    state.best_idea_id = Some(99);

    let event = GeneratePhase::event(&state, 5);
    assert_eq!(event.iteration, 3);
    assert_eq!(event.event_type, EventType::Generated);
    assert_eq!(event.payload, EventPayload::Count { count: 5 });

    let event = CriticPhase::event(&state, 4);
    assert_eq!(event.iteration, 3);
    assert_eq!(event.event_type, EventType::Scored);
    assert_eq!(event.payload, EventPayload::Count { count: 4 });

    let event = SelectPhase::event(&state, 6, 2);
    assert_eq!(event.iteration, 3);
    assert_eq!(event.event_type, EventType::Selected);
    assert_eq!(
        event.payload,
        EventPayload::Selection { selected: 6, archived: 2, best_score: Some(8125) }
    );

    let event = RefinePhase::event(&state, 2);
    assert_eq!(event.iteration, 3);
    assert_eq!(event.event_type, EventType::Refined);
    assert_eq!(event.payload, EventPayload::Count { count: 2 });

    let event = stop_event(&state, StopReason::Stagnation);
    assert_eq!(event.iteration, 3);
    assert_eq!(event.event_type, EventType::Stopped);
    assert_eq!(
        event.payload,
        EventPayload::Stop {
            reason: StopReason::Stagnation,
            best_score: Some(8125),
            best_id: Some(99),
        }
    );
    assert!(event.ts > 1_577_836_800_000);
}
