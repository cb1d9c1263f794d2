use evoidea::config::ScoringWeights;
use evoidea::config::WEIGHT_ONE;
use evoidea::data::Scores;
use evoidea::llm::ScoresDraft;
use evoidea::preference::build_portable_profile;
use evoidea::preference::derive_preference_profile;
use evoidea::preference::dot_product;
use evoidea::preference::evaluate_pairwise_accuracy;
use evoidea::preference::fit_criterion_weights_pairwise_mw;
use evoidea::preference::fit_criterion_weights_pairwise_mw_on_indices;
use evoidea::preference::import_profile;
use evoidea::preference::infer_risk_mode;
use evoidea::preference::lookup_scores;
use evoidea::preference::normalize_in_place;
use evoidea::preference::preference_deltas;
use evoidea::preference::scores_to_features;
use evoidea::preference::shuffled_indices;
use evoidea::preference::summarize_weights;
use evoidea::preference::weights_of;
use evoidea::preference::Accuracy;
use evoidea::preference::PortableProfile;
use evoidea::preference::ProfileError;
use evoidea::preference::ProfileStats;
use evoidea::preference::RiskMode;
use evoidea::preference::HOLDOUT_SEED;
use evoidea::preference::HOLDOUT_SHARE;
use evoidea::preference::WEIGHT_CEILING;
use evoidea::preference::WEIGHT_FLOOR;
use evoidea::tournament::Comparison;
use evoidea::tournament::IdeaRecord;
use evoidea::tournament::Preferences;
use evoidea::tournament::Rating;

/// The factor by which a difference of `delta` thousandths of a point makes
/// a weight grow: the exponential of a twentieth of the difference in points.
fn growth(delta: i64) -> u64 {
    ((0.05 * delta as f64 / 1000.0).exp() * 1e9).round() as u64
}

fn growth_factors(deltas: &Vec<[i64; 8]>) -> Vec<[u64; 8]> {
    deltas
        .iter()
        .map(|delta| {
            let mut factors = [0u64; 8];
            for k in 0..8 {
                factors[k] = growth(delta[k]);
            }
            factors
        })
        .collect()
}

fn points(values: [f64; 8]) -> ScoresDraft {
    let milli = |v: f64| Some((v * 1000.0).round() as i32);
    ScoresDraft {
        feasibility: milli(values[0]),
        speed_to_value: milli(values[1]),
        differentiation: milli(values[2]),
        market_size: milli(values[3]),
        distribution: milli(values[4]),
        moats: milli(values[5]),
        risk: milli(values[6]),
        clarity: milli(values[7]),
    }
}

fn idea(id: &str, scores: Option<ScoresDraft>, overall: Option<f64>) -> IdeaRecord {
    IdeaRecord {
        id: Some(id.to_string()),
        title: None,
        origin: None,
        parent_count: None,
        status: None,
        scores,
        overall_score: overall.map(|v| (v * 1000.0).round() as i64),
    }
}

fn choice(a: &str, b: &str, winner: &str) -> Comparison {
    Comparison {
        idea_a: Some(a.to_string()),
        idea_b: Some(b.to_string()),
        winner: Some(winner.to_string()),
    }
}

fn weights(values: [u64; 8]) -> ScoringWeights {
    weights_of(&values)
}

fn as_array(w: &ScoringWeights) -> [u64; 8] {
    [
        w.feasibility,
        w.speed_to_value,
        w.differentiation,
        w.market_size,
        w.distribution,
        w.moats,
        w.risk,
        w.clarity,
    ]
}

#[test]
fn test_derive_preference_profile_returns_none_without_comparisons() {
    let preferences = Preferences { comparisons: Vec::new(), elo_ratings: Vec::new() };
    let state: Vec<IdeaRecord> = Vec::new();

    let derived = derive_preference_profile(&preferences, &state, &Vec::new());
    assert!(derived.is_none());
}

#[test]
fn test_derive_preference_profile_learns_risk_weight_when_risk_is_benefit() {
    // Higher "risk" score means safer (benefit) and contributes positively to
    // overall_score (i.e., no inversion). This test ensures we infer that
    // mode and learn a higher weight for risk when the user consistently
    // prefers the safer idea.
    let state = vec![
        idea("safe", Some(points([5.0, 5.0, 5.0, 5.0, 5.0, 5.0, 9.0, 5.0])), Some(5.5)),
        idea("risky", Some(points([5.0, 5.0, 5.0, 5.0, 5.0, 5.0, 1.0, 5.0])), Some(4.5)),
    ];

    let preferences = Preferences {
        comparisons: vec![choice("safe", "risky", "safe")],
        elo_ratings: Vec::new(),
    };

    let deltas = preference_deltas(&preferences, &state);
    let derived =
        derive_preference_profile(&preferences, &state, &growth_factors(&deltas)).expect("derived");
    let learned = derived.criterion_weights;
    let risk = learned.risk as f64 / 1e9;
    let feasibility = learned.feasibility as f64 / 1e9;

    assert!(risk > feasibility);

    // Weights should be normalized to sum ~= 1.
    let sum: f64 = as_array(&learned).iter().map(|w| *w as f64 / 1e9).sum();
    assert!((sum - 1.0).abs() < 1e-6);

    assert_eq!(derived.method, "pairwise-multiplicative-weights");
    assert_eq!(derived.comparisons_used, 1);

    assert_eq!(derived.summary.len(), 2);

    // One weight grows by the exponential of 0.4 and all are scaled to one.
    let grown = (0.4f64).exp();
    assert!((risk - grown / (7.0 + grown)).abs() < 1e-8);
    assert!((feasibility - 1.0 / (7.0 + grown)).abs() < 1e-8);
    assert_eq!(derived.holdout_accuracy, None);
    assert_eq!(
        derived.summary,
        vec![
            "Prioritizes risk and feasibility over other criteria.".to_string(),
            "De-emphasizes clarity and moats relative to other criteria.".to_string(),
        ]
    );
}

#[test]
fn test_infer_risk_mode() {
    let benefit = |id: &str, risk: f64| {
        let scores = [5.0, 5.0, 5.0, 5.0, 5.0, 5.0, risk, 5.0];
        idea(id, Some(points(scores)), Some((35.0 + risk) / 8.0))
    };
    let inverted = |id: &str, risk: f64| {
        let scores = [5.0, 5.0, 5.0, 5.0, 5.0, 5.0, risk, 5.0];
        idea(id, Some(points(scores)), Some((45.0 - risk) / 8.0))
    };
    // Fewer than three scored ideas: as a benefit, whatever they say.
    assert_eq!(infer_risk_mode(&Vec::new()), RiskMode::AsBenefit);
    assert_eq!(
        infer_risk_mode(&vec![inverted("a", 1.0), inverted("b", 2.0)]),
        RiskMode::AsBenefit
    );
    assert_eq!(
        infer_risk_mode(&vec![inverted("a", 1.0), inverted("b", 2.0), inverted("c", 9.0)]),
        RiskMode::Invert
    );
    assert_eq!(
        infer_risk_mode(&vec![benefit("a", 1.0), benefit("b", 2.0), benefit("c", 9.0)]),
        RiskMode::AsBenefit
    );
    // A risk of five points fits both readings alike: no evidence.
    assert_eq!(
        infer_risk_mode(&vec![inverted("a", 5.0), inverted("b", 5.0), inverted("c", 5.0)]),
        RiskMode::AsBenefit
    );
    // Records that are not fully scored do not count.
    let partial = ScoresDraft { clarity: None, ..points([5.0; 8]) };
    assert_eq!(
        infer_risk_mode(&vec![
            inverted("a", 1.0),
            inverted("b", 2.0),
            idea("c", Some(partial), Some(1.0)),
            idea("d", Some(points([5.0; 8])), None),
            idea("e", None, Some(3.0)),
        ]),
        RiskMode::AsBenefit
    );
    // The majority of the error decides.
    assert_eq!(
        infer_risk_mode(&vec![inverted("a", 1.0), inverted("b", 0.0), benefit("c", 4.0)]),
        RiskMode::Invert
    );
}

#[test]
fn test_features_and_lessons() {
    let scores = Scores {
        feasibility: 1000,
        speed_to_value: 2000,
        differentiation: 3000,
        market_size: 4000,
        distribution: 5000,
        moats: 6000,
        risk: 7000,
        clarity: 8000,
    };
    assert_eq!(
        scores_to_features(&scores, RiskMode::AsBenefit),
        [1000, 2000, 3000, 4000, 5000, 6000, 7000, 8000]
    );
    assert_eq!(
        scores_to_features(&scores, RiskMode::Invert),
        [1000, 2000, 3000, 4000, 5000, 6000, 3000, 8000]
    );

    let state = vec![
        idea("a", Some(points([1.0, 2.0, 3.0, 4.0, 5.0, 6.0, 7.0, 8.0])), Some(4.5)),
        idea("b", Some(points([2.0; 8])), Some(2.0)),
        idea("half", Some(ScoresDraft { risk: None, ..points([2.0; 8]) }), Some(2.0)),
        IdeaRecord { id: None, ..idea("nameless", Some(points([9.0; 8])), Some(9.0)) },
        // A later record of the same idea replaces the earlier one.
        idea("b", Some(points([3.0; 8])), None),
    ];
    assert_eq!(lookup_scores(&state, "a").unwrap().clarity, 8000);
    assert_eq!(lookup_scores(&state, "b").unwrap().risk, 3000);
    assert_eq!(lookup_scores(&state, "half"), None);
    assert_eq!(lookup_scores(&state, "nameless"), None);
    assert_eq!(lookup_scores(&state, "zz"), None);

    let preferences = Preferences {
        comparisons: vec![
            choice("a", "b", "a"),
            choice("a", "b", "b"),
            choice("a", "b", "c"),
            choice("a", "half", "a"),
            choice("zz", "a", "a"),
            Comparison { winner: None, ..choice("a", "b", "a") },
            Comparison { idea_a: None, ..choice("a", "b", "b") },
            choice("b", "b", "b"),
        ],
        elo_ratings: Vec::new(),
    };
    assert_eq!(
        preference_deltas(&preferences, &state),
        vec![
            [-2000, -1000, 0, 1000, 2000, 3000, 4000, 5000],
            [2000, 1000, 0, -1000, -2000, -3000, -4000, -5000],
            [0; 8],
        ]
    );
    // Nothing to learn from: nothing is derived.
    let unknown = Preferences { comparisons: vec![choice("x", "y", "x")], elo_ratings: Vec::new() };
    assert!(preference_deltas(&unknown, &state).is_empty());
    assert!(derive_preference_profile(&unknown, &state, &Vec::new()).is_none());
    // Growth factors that do not match the comparisons one for one: nothing
    // is derived either.
    let deltas = preference_deltas(&preferences, &state);
    let factors = growth_factors(&deltas);
    assert!(derive_preference_profile(&preferences, &state, &factors).is_some());
    assert!(derive_preference_profile(&preferences, &state, &factors[..2].to_vec()).is_none());
    assert!(derive_preference_profile(&preferences, &state, &Vec::new()).is_none());
}

#[test]
fn test_lessons_follow_the_inferred_risk_mode() {
    let inverted = |id: &str, risk: f64| {
        let scores = [5.0, 5.0, 5.0, 5.0, 5.0, 5.0, risk, 5.0];
        idea(id, Some(points(scores)), Some((45.0 - risk) / 8.0))
    };
    let state = vec![inverted("a", 1.0), inverted("b", 2.0), inverted("c", 9.0)];
    let preferences = Preferences { comparisons: vec![choice("a", "c", "a")], elo_ratings: Vec::new() };
    // The risk of a is 1 and that of c is 9; inverted they are 9 and 1.
    assert_eq!(
        preference_deltas(&preferences, &state),
        vec![[0, 0, 0, 0, 0, 0, 8000, 0]]
    );
}

#[test]
fn test_normalize_in_place() {
    let mut w = [WEIGHT_ONE; 8];
    normalize_in_place(&mut w);
    assert_eq!(w, [125_000_000; 8]);
    let mut w = [0u64; 8];
    normalize_in_place(&mut w);
    assert_eq!(w, [125_000_000; 8]);
    let mut w = [3, 0, 0, 0, 0, 0, 0, 0];
    normalize_in_place(&mut w);
    assert_eq!(w, [WEIGHT_ONE, 0, 0, 0, 0, 0, 0, 0]);
    let mut w = [1, 1, 1, 0, 0, 0, 0, 0];
    normalize_in_place(&mut w);
    assert_eq!(w, [333_333_333, 333_333_333, 333_333_333, 0, 0, 0, 0, 0]);
    let mut w = [u64::MAX; 8];
    normalize_in_place(&mut w);
    assert_eq!(w, [125_000_000; 8]);
}

#[test]
fn test_fit_on_indices_is_exact() {
    let one = WEIGHT_ONE;
    let factors = vec![
        [2 * one, one, one, one, one, one, one, one / 2],
        [one, 200 * one, one, one, one, one, one, 0],
    ];
    // No comparison: all weights are one.
    assert_eq!(
        fit_criterion_weights_pairwise_mw_on_indices(&factors, &Vec::new()),
        weights([one; 8])
    );
    // One step: 2, six times 1 and a half, scaled by the sum of 8.5.
    let fitted = fit_criterion_weights_pairwise_mw_on_indices(&factors, &vec![0]);
    assert_eq!(
        as_array(&fitted),
        [
            235_294_117,
            117_647_058,
            117_647_058,
            117_647_058,
            117_647_058,
            117_647_058,
            117_647_058,
            58_823_529
        ]
    );
    // A second step on top: the large factor is held at the ceiling of ten
    // and the zero factor at the floor of a tenth.
    let fitted = fit_criterion_weights_pairwise_mw_on_indices(&factors, &vec![0, 1]);
    let raised: [u64; 8] = [
        235_294_117,
        WEIGHT_CEILING,
        117_647_058,
        117_647_058,
        117_647_058,
        117_647_058,
        117_647_058,
        WEIGHT_FLOOR,
    ];
    let total: u128 = raised.iter().map(|w| *w as u128).sum();
    let expected: Vec<u64> = raised
        .iter()
        .map(|w| (*w as u128 * one as u128 / total) as u64)
        .collect();
    assert_eq!(as_array(&fitted).to_vec(), expected);
    let sum: u64 = as_array(&fitted).iter().sum();
    assert!(sum <= one && sum >= one - 7);
    // The order of the steps matters, and a comparison may be used twice.
    let other = fit_criterion_weights_pairwise_mw_on_indices(&factors, &vec![1, 0]);
    assert_ne!(other, fitted);
    let twice = fit_criterion_weights_pairwise_mw_on_indices(&factors, &vec![0, 0]);
    assert!(twice.feasibility > 235_294_117);
}

#[test]
fn test_evaluate_pairwise_accuracy() {
    let deltas = vec![
        [1000, 0, 0, 0, 0, 0, 0, 0],
        [-1000, 0, 0, 0, 0, 0, 0, 0],
        [-1000, 3000, 0, 0, 0, 0, 0, 0],
        [0; 8],
        [1000, -1000, 0, 0, 0, 0, 0, 0],
    ];
    let w = weights([3, 1, 0, 0, 0, 0, 0, 0]);
    assert_eq!(dot_product(&w, &deltas[0]), 3000);
    assert_eq!(dot_product(&w, &deltas[2]), 0);
    assert_eq!(dot_product(&w, &deltas[4]), 2000);
    assert_eq!(
        evaluate_pairwise_accuracy(&deltas, &w, &vec![0, 1, 2, 3, 4]),
        Accuracy { correct: 4, total: 5 }
    );
    assert_eq!(
        evaluate_pairwise_accuracy(&deltas, &w, &vec![1, 1]),
        Accuracy { correct: 0, total: 2 }
    );
    assert_eq!(
        evaluate_pairwise_accuracy(&deltas, &w, &Vec::new()),
        Accuracy { correct: 0, total: 0 }
    );
    let extreme = vec![[0x2_0000_0000i64; 8], [-0x2_0000_0000i64; 8]];
    let heavy = weights([u64::MAX; 8]);
    assert_eq!(
        evaluate_pairwise_accuracy(&extreme, &heavy, &vec![0, 1]),
        Accuracy { correct: 1, total: 2 }
    );
}

#[test]
fn test_shuffled_indices() {
    let order = shuffled_indices(50, 1);
    let mut sorted = order.clone();
    sorted.sort();
    assert_eq!(sorted, (0..50).collect::<Vec<usize>>());
    // The shuffle moves something, and the same seed gives the same order.
    assert_ne!(order, sorted);
    assert_eq!(shuffled_indices(50, 1), order);
    assert_ne!(shuffled_indices(50, 2), order);
    assert!(shuffled_indices(0, 1).is_empty());
    assert_eq!(shuffled_indices(1, 9), vec![0]);
}

#[test]
fn test_fit_with_holdout() {
    let deltas: Vec<[i64; 8]> = (0..10)
        .map(|k| {
            let mut delta = [0i64; 8];
            delta[0] = 2000;
            delta[1] = if k % 2 == 0 { -1000 } else { 500 };
            delta
        })
        .collect();
    let factors = growth_factors(&deltas);
    let (fitted, accuracy) =
        fit_criterion_weights_pairwise_mw(&deltas, &factors, HOLDOUT_SHARE, HOLDOUT_SEED);
    let order = shuffled_indices(10, HOLDOUT_SEED);
    // A fifth of ten comparisons is held out; the weights returned are
    // fitted to all ten, in the shuffled order.
    assert_eq!(fitted, fit_criterion_weights_pairwise_mw_on_indices(&factors, &order));
    let train = fit_criterion_weights_pairwise_mw_on_indices(&factors, &order[2..].to_vec());
    assert_eq!(
        accuracy,
        Some(evaluate_pairwise_accuracy(&deltas, &train, &order[..2].to_vec()))
    );
    assert_eq!(accuracy, Some(Accuracy { correct: 2, total: 2 }));
    assert!(fitted.feasibility > fitted.differentiation);
    assert!(fitted.speed_to_value < fitted.differentiation);

    // The share is rounded to the nearest count: 0.2 of 2 is none, of 3 one.
    let (_, none) = fit_criterion_weights_pairwise_mw(
        &deltas[..2].to_vec(),
        &factors[..2].to_vec(),
        HOLDOUT_SHARE,
        HOLDOUT_SEED,
    );
    assert_eq!(none, None);
    let (_, one) = fit_criterion_weights_pairwise_mw(
        &deltas[..3].to_vec(),
        &factors[..3].to_vec(),
        HOLDOUT_SHARE,
        HOLDOUT_SEED,
    );
    assert_eq!(one.unwrap().total, 1);
    let (all, every) = fit_criterion_weights_pairwise_mw(
        &deltas[..3].to_vec(),
        &factors[..3].to_vec(),
        1_000_000,
        HOLDOUT_SEED,
    );
    assert_eq!(every.unwrap().total, 3);
    // With everything held out the estimate is that of weights of one.
    assert_eq!(every.unwrap().correct, 3);
    assert_ne!(all, weights([WEIGHT_ONE; 8]));
}

#[test]
fn test_summarize_weights() {
    let summary = summarize_weights(&weights([5, 9, 1, 7, 3, 8, 2, 6]));
    assert_eq!(
        summary,
        vec![
            "Prioritizes speed_to_value and moats over other criteria.".to_string(),
            "De-emphasizes differentiation and risk relative to other criteria.".to_string(),
        ]
    );
    // Equal weights rank in the criterion order.
    let summary = summarize_weights(&ScoringWeights::default());
    assert_eq!(
        summary,
        vec![
            "Prioritizes feasibility and speed_to_value over other criteria.".to_string(),
            "De-emphasizes clarity and risk relative to other criteria.".to_string(),
        ]
    );
    let summary = summarize_weights(&weights([1, 1, 4, 1, 1, 4, 0, 0]));
    assert_eq!(
        summary,
        vec![
            "Prioritizes differentiation and moats over other criteria.".to_string(),
            "De-emphasizes clarity and risk relative to other criteria.".to_string(),
        ]
    );
}

#[test]
fn test_portable_profile_round_trip() {
    let preferences = Preferences {
        comparisons: vec![choice("a", "b", "a"), Comparison { winner: None, ..choice("b", "c", "") }],
        elo_ratings: vec![
            Rating { id: "a".into(), elo: 1_016_000 },
            Rating { id: "b".into(), elo: 984_000 },
            Rating { id: "c".into(), elo: 1_000_000 },
        ],
    };
    let profile = build_portable_profile("run-7", preferences.clone(), None);
    assert_eq!(profile.version, Some(1));
    assert_eq!(profile.source_run.as_deref(), Some("run-7"));
    assert_eq!(profile.stats, ProfileStats { comparisons: 2, ideas_rated: 3 });
    assert_eq!(profile.derived, None);
    // The stamp is a moment in RFC 3339 form.
    assert!(chrono::DateTime::parse_from_rfc3339(&profile.created_at).is_ok());
    assert_eq!(import_profile(profile), Ok(preferences.clone()));

    // An identifier that is listed twice is one rated idea.
    let doubled = Preferences {
        comparisons: Vec::new(),
        elo_ratings: vec![
            Rating { id: "a".into(), elo: 1 },
            Rating { id: "b".into(), elo: 2 },
            Rating { id: "a".into(), elo: 3 },
        ],
    };
    let profile = build_portable_profile("run-8", doubled, None);
    assert_eq!(profile.stats, ProfileStats { comparisons: 0, ideas_rated: 2 });

    let blank = PortableProfile {
        version: None,
        created_at: String::new(),
        source_run: None,
        stats: ProfileStats { comparisons: 0, ideas_rated: 0 },
        preferences: None,
        derived: None,
    };
    assert_eq!(import_profile(blank.clone()), Err(ProfileError::MissingVersion));
    assert_eq!(
        import_profile(PortableProfile { version: Some(2), ..blank.clone() }),
        Err(ProfileError::UnsupportedVersion { version: 2 })
    );
    assert_eq!(
        import_profile(PortableProfile {
            version: Some(2),
            preferences: Some(preferences.clone()),
            ..blank.clone()
        }),
        Err(ProfileError::UnsupportedVersion { version: 2 })
    );
    assert_eq!(
        import_profile(PortableProfile { version: Some(1), ..blank.clone() }),
        Err(ProfileError::MissingPreferences)
    );
    assert_eq!(
        import_profile(PortableProfile {
            version: Some(1),
            preferences: Some(preferences.clone()),
            ..blank
        }),
        Ok(preferences)
    );
}
