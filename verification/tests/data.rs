use evoidea::config::RunConfig;
use evoidea::config::ScoringWeights;
use evoidea::config::WEIGHT_ONE;
use evoidea::data::Event;
use evoidea::data::EventPayload;
use evoidea::data::EventType;
use evoidea::data::Facets;
use evoidea::data::Idea;
use evoidea::data::IdeaStatus;
use evoidea::data::Origin;
use evoidea::data::Scores;
use evoidea::data::State;
use uuid::Uuid;

fn plain_facets() -> Facets {
    Facets {
        audience: "test".into(),
        jtbd: "test".into(),
        differentiator: "test".into(),
        monetization: "test".into(),
        distribution: "test".into(),
        risks: "test".into(),
    }
}

#[test]
fn test_default_weights_all_one() {
    let weights = ScoringWeights::default();
    assert_eq!(weights.feasibility, WEIGHT_ONE);
    assert_eq!(weights.speed_to_value, WEIGHT_ONE);
    assert_eq!(weights.differentiation, WEIGHT_ONE);
    assert_eq!(weights.market_size, WEIGHT_ONE);
    assert_eq!(weights.distribution, WEIGHT_ONE);
    assert_eq!(weights.moats, WEIGHT_ONE);
    assert_eq!(weights.risk, WEIGHT_ONE);
    assert_eq!(weights.clarity, WEIGHT_ONE);
    assert_eq!(WEIGHT_ONE as f64 / 1e9, 1.0);
}

#[test]
fn test_run_config_new_sets_values_and_defaults() {
    let config = RunConfig::new(
        "Generate startup ideas".into(),
        "mock".into(),
        6,
        12,
        4,
        8700,
        2,
        "runs".into(),
    );
    assert_eq!(config.prompt, "Generate startup ideas");
    assert_eq!(config.mode, "mock");
    assert_eq!(config.language, "en");
    assert_eq!(config.max_rounds, 6);
    assert_eq!(config.population_size, 12);
    assert_eq!(config.elite_count, 4);
    assert_eq!(config.mutation_count, 4);
    assert_eq!(config.crossover_count, 4);
    assert_eq!(config.wildcard_count, 1);
    assert_eq!(config.stagnation_patience, 2);
    assert_eq!(config.score_threshold, 8700);
    assert!(!config.search_enabled);
    assert_eq!(config.scoring_weights, ScoringWeights::default());
    assert_eq!(config.output_dir, "runs");

    let other = RunConfig::new("p".into(), "mock".into(), 1, 1, 1, 0, 1, "runs".into());
    assert_ne!(config.run_id, other.run_id);
}

#[test]
fn test_idea_invariants_generated_no_parents() {
    let idea = Idea::new("Test".into(), "Test".into(), plain_facets(), 1, Origin::Generated);
    assert!(
        idea.parents.is_empty(),
        "Generated ideas should have no parents"
    );
}

#[test]
fn test_idea_invariants_crossover_has_parents() {
    let parent1 = Uuid::new_v4().as_u128();
    let parent2 = Uuid::new_v4().as_u128();
    let idea = Idea::new("Test".into(), "Test".into(), plain_facets(), 2, Origin::Crossover)
        .with_parents(vec![parent1, parent2]);

    assert!(
        !idea.parents.is_empty(),
        "Crossover ideas should have parents"
    );
    assert_eq!(idea.parents.len(), 2);
    assert_eq!(idea.parents, vec![parent1, parent2]);
    assert_eq!(idea.origin, Origin::Crossover);
    assert_eq!(idea.gen, 2);
}

#[test]
fn test_state_active_ideas_filter() {
    let run_id = Uuid::new_v4().as_u128();
    let mut state = State::new(run_id);

    let idea1 = Idea::new(
        "Active".into(),
        "Active".into(),
        plain_facets(),
        1,
        Origin::Generated,
    );
    let mut idea2 = Idea::new(
        "Archived".into(),
        "Archived".into(),
        plain_facets(),
        1,
        Origin::Generated,
    );
    idea2.status = IdeaStatus::Archived;

    state.ideas.push(idea1);
    state.ideas.push(idea2);

    let active: Vec<_> = state.active_ideas();
    assert_eq!(active.len(), 1);
    assert_eq!(active[0].title, "Active");
}

#[test]
fn test_idea_new_is_fresh() {
    let idea = Idea::new("T".into(), "S".into(), plain_facets(), 7, Origin::Mutated);
    assert_eq!(idea.title, "T");
    assert_eq!(idea.summary, "S");
    assert_eq!(idea.facets, plain_facets());
    assert_eq!(idea.gen, 7);
    assert_eq!(idea.origin, Origin::Mutated);
    assert_eq!(idea.scores, Scores::default());
    assert_eq!(idea.overall_score, None);
    assert_eq!(idea.judge_notes, None);
    assert_eq!(idea.status, IdeaStatus::Active);
    let other = Idea::new("T".into(), "S".into(), plain_facets(), 7, Origin::Mutated);
    assert_ne!(idea.id, other.id);
    // The identifier is that of a version 4 UUID.
    assert_eq!(Uuid::from_u128(idea.id).get_version_num(), 4);

    let fixed = Idea::with_id(42, "T".into(), "S".into(), plain_facets(), 7, Origin::Refined);
    assert_eq!(fixed.id, 42);
    assert_eq!(fixed.origin, Origin::Refined);
    assert!(fixed.parents.is_empty());
}

#[test]
fn test_state_new_is_empty() {
    let state = State::new(9);
    assert_eq!(state.run_id, 9);
    assert_eq!(state.iteration, 0);
    assert!(state.ideas.is_empty());
    assert_eq!(state.best_idea_id, None);
    assert_eq!(state.best_score, None);
    assert_eq!(state.stagnation_counter, 0);
    assert!(state.active_ideas().is_empty());
}

#[test]
fn test_scores_default_is_zero() {
    let scores = Scores::default();
    assert_eq!(
        scores,
        Scores {
            feasibility: 0,
            speed_to_value: 0,
            differentiation: 0,
            market_size: 0,
            distribution: 0,
            moats: 0,
            risk: 0,
            clarity: 0,
        }
    );
}

#[test]
fn test_event_new_is_stamped_with_the_clock() {
    let event = Event::new(3, EventType::Generated, EventPayload::Count { count: 5 });
    assert_eq!(event.iteration, 3);
    assert_eq!(event.event_type, EventType::Generated);
    assert_eq!(event.payload, EventPayload::Count { count: 5 });
    // Later than the first of January 2020, in milliseconds.
    assert!(event.ts > 1_577_836_800_000);
    let later = Event::new(3, EventType::Scored, EventPayload::Count { count: 5 });
    assert!(later.ts >= event.ts);
}

#[test]
fn test_facets_duplicate_is_equal() {
    let facets = Facets {
        audience: "a".into(),
        jtbd: "b".into(),
        differentiator: "c".into(),
        monetization: "d".into(),
        distribution: "e".into(),
        risks: "f".into(),
    };
    assert_eq!(facets.duplicate(), facets);
}
