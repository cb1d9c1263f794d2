use evoidea::llm::ScoresDraft;
use evoidea::tournament::calculate_pairwise_limit;
use evoidea::tournament::count_rated;
use evoidea::tournament::eligible_ideas;
use evoidea::tournament::extract_scores;
use evoidea::tournament::gain_for;
use evoidea::tournament::idea_has_complete_scores;
use evoidea::tournament::is_active_record;
use evoidea::tournament::lookup_rating;
use evoidea::tournament::next_pair_positions;
use evoidea::tournament::next_unrecorded;
use evoidea::tournament::parse_choice;
use evoidea::tournament::rank_by_overall;
use evoidea::tournament::rating_gap;
use evoidea::tournament::read_choice;
use evoidea::tournament::record_id;
use evoidea::tournament::select_next_pair;
use evoidea::tournament::set_rating;
use evoidea::tournament::standings;
use evoidea::tournament::update_elo;
use evoidea::tournament::was_compared;
use evoidea::tournament::was_recorded;
use evoidea::tournament::Choice;
use evoidea::tournament::Comparison;
use evoidea::tournament::IdeaRecord;
use evoidea::tournament::Preferences;
use evoidea::tournament::Rating;
use evoidea::tournament::Tournament;
use evoidea::tournament::TournamentError;
use evoidea::tournament::DEFAULT_ELO;
use evoidea::tournament::EXPECTED_ONE;
use evoidea::tournament::K_FACTOR;

fn elo(points: f64) -> i64 {
    (points * 1000.0).round() as i64
}

fn expected_score(gap: i128) -> u32 {
    let exponent = gap as f64 / 1000.0 / 400.0;
    (1_000_000.0 / (1.0 + 10.0_f64.powf(exponent))).round() as u32
}

fn ratings_of(entries: &[(&str, f64)]) -> Vec<Rating> {
    entries
        .iter()
        .map(|(id, points)| Rating { id: id.to_string(), elo: elo(*points) })
        .collect()
}

fn names(ids: &[&str]) -> Vec<String> {
    ids.iter().map(|id| id.to_string()).collect()
}

fn all_scores(value: i32) -> ScoresDraft {
    ScoresDraft {
        feasibility: Some(value),
        speed_to_value: Some(value),
        differentiation: Some(value),
        market_size: Some(value),
        distribution: Some(value),
        moats: Some(value),
        risk: Some(value),
        clarity: Some(value),
    }
}

fn record(id: &str, status: &str, overall: Option<i64>, scores: Option<ScoresDraft>) -> IdeaRecord {
    IdeaRecord {
        id: Some(id.to_string()),
        title: Some(format!("title of {}", id)),
        origin: Some("generated".to_string()),
        parent_count: Some(0),
        status: Some(status.to_string()),
        scores,
        overall_score: overall,
    }
}

fn comparison(a: &str, b: &str, winner: &str) -> Comparison {
    Comparison {
        idea_a: Some(a.to_string()),
        idea_b: Some(b.to_string()),
        winner: Some(winner.to_string()),
    }
}

fn no_preferences() -> Preferences {
    Preferences { comparisons: Vec::new(), elo_ratings: Vec::new() }
}

#[test]
fn test_select_next_pair_picks_closest_elo() {
    // Given 4 items with Elo ratings, should pick the pair with closest ratings
    let elo_ratings = ratings_of(&[("a", 1000.0), ("b", 1050.0), ("c", 1200.0), ("d", 1500.0)]);
    let compared: Vec<(String, String)> = Vec::new();
    let ids = names(&["a", "b", "c", "d"]);

    let pair = select_next_pair(&ids, &elo_ratings, &compared);

    assert!(pair.is_some());
    let (id1, id2) = pair.unwrap();
    // Should pick a and b (closest ratings: 50 diff)
    assert!((id1 == "a" && id2 == "b") || (id1 == "b" && id2 == "a"));
}

#[test]
fn test_select_next_pair_skips_already_compared() {
    let elo_ratings = ratings_of(&[("a", 1000.0), ("b", 1050.0), ("c", 1100.0)]);

    // a-b already compared
    let compared = vec![("a".to_string(), "b".to_string())];
    let ids = names(&["a", "b", "c"]);

    let pair = select_next_pair(&ids, &elo_ratings, &compared);

    assert!(pair.is_some());
    let (id1, id2) = pair.unwrap();
    // Should pick b-c (next closest, 50 diff) since a-b is done
    assert!((id1 == "b" && id2 == "c") || (id1 == "c" && id2 == "b"));
}

#[test]
fn test_select_next_pair_returns_none_when_done() {
    let elo_ratings = ratings_of(&[("a", 1000.0), ("b", 1050.0)]);

    // Only pair already compared
    let compared = vec![("a".to_string(), "b".to_string())];
    let ids = names(&["a", "b"]);

    let pair = select_next_pair(&ids, &elo_ratings, &compared);

    assert!(pair.is_none());
}

#[test]
fn test_select_next_pair_ties_and_defaults() {
    // All gaps equal: the first pair in the order of places wins.
    let ids = names(&["a", "b", "c"]);
    let none: Vec<Rating> = Vec::new();
    assert_eq!(next_pair_positions(&ids, &none, &Vec::new()), Some((0, 1)));
    // A stored pair counts in either order.
    let compared = vec![("b".to_string(), "a".to_string())];
    assert!(was_compared(&compared, "a", "b"));
    assert!(!was_compared(&compared, "a", "c"));
    assert_eq!(next_pair_positions(&ids, &none, &compared), Some((0, 2)));
    // An unrated idea counts as 1000 points.
    let ratings = ratings_of(&[("a", 1300.0), ("c", 1010.0)]);
    assert_eq!(
        select_next_pair(&ids, &ratings, &Vec::new()),
        Some(("b".to_string(), "c".to_string()))
    );
    // The closest pair may come last.
    let ratings = ratings_of(&[("a", 1000.0), ("b", 1400.0), ("c", 1390.0)]);
    assert_eq!(next_pair_positions(&ids, &ratings, &Vec::new()), Some((1, 2)));
    assert_eq!(next_pair_positions(&names(&["a"]), &ratings, &Vec::new()), None);
    assert_eq!(next_pair_positions(&Vec::new(), &ratings, &Vec::new()), None);
}

#[test]
fn test_pairwise_elo_updates_after_comparison() {
    // After a pairwise comparison, Elo ratings should update correctly
    let mut preferences = Preferences {
        comparisons: Vec::new(),
        elo_ratings: ratings_of(&[("idea-001", 1000.0), ("idea-002", 1000.0)]),
    };

    // idea-001 wins
    let expected = expected_score(rating_gap(&preferences, "idea-001", "idea-002"));
    assert_eq!(expected, 500_000);
    update_elo(&mut preferences, "idea-001", "idea-002", expected);

    let winner_elo = lookup_rating(&preferences.elo_ratings, "idea-001");
    let loser_elo = lookup_rating(&preferences.elo_ratings, "idea-002");

    // Winner should gain, loser should lose
    assert!(winner_elo > elo(1000.0));
    assert!(loser_elo < elo(1000.0));
    // Zero-sum: changes should be equal and opposite
    assert!(((winner_elo - elo(1000.0) + loser_elo - elo(1000.0)) as f64 / 1000.0).abs() < 0.001);
    assert_eq!(winner_elo, elo(1016.0));
    assert_eq!(loser_elo, elo(984.0));
}

#[test]
fn test_elo_update_is_zero_sum_for_any_expectation() {
    for (winner, loser) in [(1000.0, 1000.0), (1200.0, 900.0), (850.5, 1490.25), (3000.0, 100.0)] {
        let mut preferences = Preferences {
            comparisons: vec![comparison("w", "l", "w")],
            elo_ratings: ratings_of(&[("x", 1.0), ("w", winner), ("l", loser)]),
        };
        let gap = rating_gap(&preferences, "w", "l");
        assert_eq!(gap, (elo(loser) - elo(winner)) as i128);
        let expected = expected_score(gap);
        update_elo(&mut preferences, "w", "l", expected);
        let new_winner = lookup_rating(&preferences.elo_ratings, "w");
        let new_loser = lookup_rating(&preferences.elo_ratings, "l");
        assert_eq!((new_winner - elo(winner)) + (new_loser - elo(loser)), 0);
        assert_eq!(new_winner - elo(winner), gain_for(expected));
        assert!(new_winner >= elo(winner));
        assert_eq!(lookup_rating(&preferences.elo_ratings, "x"), elo(1.0));
        assert_eq!(preferences.elo_ratings.len(), 3);
        assert_eq!(preferences.comparisons, vec![comparison("w", "l", "w")]);
    }
    assert_eq!(gain_for(0), K_FACTOR);
    assert_eq!(gain_for(EXPECTED_ONE), 0);
    assert_eq!(gain_for(240_253), 24_311);

    // Unseen ideas start from 1000 points and get a rating of their own.
    let mut preferences = no_preferences();
    update_elo(&mut preferences, "new", "other", 500_000);
    assert_eq!(
        preferences.elo_ratings,
        ratings_of(&[("new", 1016.0), ("other", 984.0)])
    );
}

#[test]
fn test_ratings_table() {
    let mut ratings = ratings_of(&[("a", 1.0), ("b", 2.0), ("a", 3.0)]);
    assert_eq!(lookup_rating(&ratings, "a"), elo(1.0));
    assert_eq!(lookup_rating(&ratings, "zz"), DEFAULT_ELO);
    assert_eq!(DEFAULT_ELO, elo(1000.0));
    set_rating(&mut ratings, "a", 7);
    set_rating(&mut ratings, "c", 9);
    assert_eq!(
        ratings,
        vec![
            Rating { id: "a".into(), elo: 7 },
            Rating { id: "b".into(), elo: 2000 },
            Rating { id: "a".into(), elo: 3000 },
            Rating { id: "c".into(), elo: 9 },
        ]
    );
}

#[test]
fn test_pairwise_comparison_limit_is_reasonable() {
    // For n items, pairwise mode should need ~2n comparisons to converge
    // (not the O(n^2) of full pairwise)
    let n = 10;
    let ids: Vec<String> = (0..n).map(|i| format!("idea-{:03}", i)).collect();
    let mut elo_ratings = Vec::new();
    for id in &ids {
        elo_ratings.push(Rating { id: id.clone(), elo: elo(1000.0) });
    }

    let max_comparisons = calculate_pairwise_limit(n);

    // Should be around 2n, definitely less than n*(n-1)/2
    assert!(max_comparisons <= 3 * n);
    assert!(max_comparisons < n * (n - 1) / 2);
    assert_eq!(max_comparisons, 20);
    assert_eq!(calculate_pairwise_limit(0), 0);
}

#[test]
fn test_eligibility() {
    let incomplete = ScoresDraft { moats: None, ..all_scores(5000) };
    let records = vec![
        record("a", "active", Some(5000), Some(all_scores(5000))),
        record("b", "archived", Some(5000), Some(all_scores(5000))),
        record("c", "active", None, Some(all_scores(5000))),
        record("d", "active", Some(5000), Some(incomplete)),
        record("e", "active", Some(5000), None),
        record("f", "active", Some(6000), Some(all_scores(6000))),
        IdeaRecord { status: None, ..record("g", "active", Some(1), Some(all_scores(1))) },
    ];
    assert!(is_active_record(&records[0]));
    assert!(!is_active_record(&records[1]));
    assert!(!is_active_record(&records[6]));
    assert!(idea_has_complete_scores(&records[1]));
    assert!(!idea_has_complete_scores(&records[2]));
    assert!(!idea_has_complete_scores(&records[3]));
    assert!(!idea_has_complete_scores(&records[4]));
    assert_eq!(extract_scores(&records[3]), None);
    assert_eq!(extract_scores(&records[0]).unwrap().moats, 5000);
    let found = eligible_ideas(&records).unwrap();
    assert_eq!(found.eligible, vec![0, 5]);
    assert_eq!(found.active, 5);
    assert_eq!(found.excluded(), 3);

    let error = eligible_ideas(&records[..5].to_vec()).unwrap_err();
    assert_eq!(error, TournamentError::TooFewEligible { eligible: 1, active: 4 });
    assert_eq!(
        error.describe(),
        "Need at least 2 scored active ideas for tournament (found 1 scored of 4 active)."
    );
    assert_eq!(
        eligible_ideas(&Vec::new()),
        Err(TournamentError::TooFewEligible { eligible: 0, active: 0 })
    );
    assert_eq!(
        Tournament::start(&Vec::new(), no_preferences(), true).err(),
        Some(TournamentError::TooFewEligible { eligible: 0, active: 0 })
    );
    let nameless = IdeaRecord { id: None, ..record("x", "active", None, None) };
    assert_eq!(record_id(&nameless), "unknown");
    assert_eq!(record_id(&records[0]), "a");
}

#[test]
fn test_automatic_ranking() {
    let records = vec![
        record("a", "active", Some(5000), Some(all_scores(5000))),
        record("b", "active", Some(7000), Some(all_scores(5000))),
        record("c", "active", Some(5000), Some(all_scores(5000))),
        record("d", "active", Some(9000), Some(all_scores(5000))),
        record("e", "active", None, Some(all_scores(5000))),
        record("f", "active", Some(-10), Some(all_scores(5000))),
    ];
    assert_eq!(
        rank_by_overall(&records, &vec![0, 1, 2, 3, 5]),
        vec![3, 1, 0, 2, 5]
    );
    // A record without an overall score counts as zero.
    assert_eq!(rank_by_overall(&records, &vec![5, 4, 0]), vec![0, 4, 5]);
}

#[test]
fn test_parse_choice() {
    assert_eq!(parse_choice("A"), Choice::PreferA);
    assert_eq!(parse_choice(" a \n"), Choice::PreferA);
    assert_eq!(parse_choice("b\n"), Choice::PreferB);
    assert_eq!(parse_choice("\ts"), Choice::Skip);
    assert_eq!(parse_choice("q"), Choice::Quit);
    assert_eq!(parse_choice(""), Choice::Invalid);
    assert_eq!(parse_choice("ab"), Choice::Invalid);
    assert_eq!(parse_choice("yes"), Choice::Invalid);
    assert_eq!(read_choice("a"), Choice::Invalid);
    assert_eq!(read_choice("Q"), Choice::Quit);
}

#[test]
fn test_pairwise_tournament_flow() {
    let records = vec![
        record("a", "active", Some(5000), Some(all_scores(5000))),
        record("skip-me", "archived", Some(5000), Some(all_scores(5000))),
        record("b", "active", Some(6000), Some(all_scores(5000))),
        record("c", "active", Some(7000), Some(all_scores(5000))),
    ];
    let preferences = Preferences {
        comparisons: vec![comparison("c", "a", "c")],
        elo_ratings: ratings_of(&[("c", 1016.0), ("a", 984.0), ("old", 1200.0)]),
    };
    let mut tournament = Tournament::start(&records, preferences, true).unwrap();
    assert!(tournament.pairwise);
    assert_eq!(tournament.ids, names(&["a", "b", "c"]));
    assert_eq!(tournament.max_comparisons, 6);
    assert_eq!(tournament.comparison_count, 0);
    assert_eq!(tournament.compared, vec![("c".to_string(), "a".to_string())]);
    // The idea without a rating got the default.
    assert_eq!(
        tournament.preferences.elo_ratings,
        ratings_of(&[("c", 1016.0), ("a", 984.0), ("old", 1200.0), ("b", 1000.0)])
    );
    assert!(tournament.check_pair((0, 1)));

    // Both open pairs are 16 points apart: the first in the order of places.
    let pair = tournament.pending().unwrap();
    assert_eq!(pair, (0, 1));
    // An invalid answer changes nothing and is not kept.
    assert!(!tournament.answer(pair, Choice::Invalid, 0));
    assert_eq!(tournament.pending(), Some((0, 1)));
    assert_eq!(tournament.comparison_count, 0);

    // B is preferred: b beats a.
    let expected = expected_score(rating_gap(&tournament.preferences, "b", "a"));
    assert!(tournament.answer(pair, Choice::PreferB, expected));
    assert_eq!(tournament.comparison_count, 1);
    assert_eq!(
        tournament.preferences.comparisons,
        vec![comparison("c", "a", "c"), comparison("a", "b", "b")]
    );
    let gain = gain_for(expected);
    assert_eq!(lookup_rating(&tournament.preferences.elo_ratings, "b"), elo(1000.0) + gain);
    assert_eq!(lookup_rating(&tournament.preferences.elo_ratings, "a"), elo(984.0) - gain);
    assert_eq!(tournament.compared.len(), 2);

    // The one pair left is skipped: kept, but no decision is counted.
    let pair = tournament.pending().unwrap();
    assert_eq!(pair, (1, 2));
    assert!(tournament.answer(pair, Choice::Skip, 0));
    assert_eq!(tournament.comparison_count, 1);
    assert_eq!(tournament.preferences.comparisons.len(), 2);
    assert_eq!(tournament.pending(), None);

    let table = &tournament.preferences.elo_ratings;
    let ranked: Vec<&str> = standings(table, &tournament.ids)
        .iter()
        .map(|k| table[*k].id.as_str())
        .collect();
    assert_eq!(ranked, vec!["c", "b", "a"]);
}

#[test]
fn test_pairwise_tournament_cap_and_quit() {
    let records: Vec<IdeaRecord> = (0..5)
        .map(|k| record(&format!("i{}", k), "active", Some(5000), Some(all_scores(5000))))
        .collect();
    let mut tournament = Tournament::start(&records, no_preferences(), true).unwrap();
    assert_eq!(tournament.max_comparisons, 10);
    let mut asked = Vec::new();
    while let Some(pair) = tournament.pending() {
        assert!(!asked.contains(&pair));
        asked.push(pair);
        let winner = tournament.ids[pair.0].clone();
        let loser = tournament.ids[pair.1].clone();
        let expected = expected_score(rating_gap(&tournament.preferences, &winner, &loser));
        assert!(tournament.check_pair(pair));
        assert!(tournament.answer(pair, Choice::PreferA, expected));
    }
    // Ten pairs exist and the cap is ten: every pair was asked once.
    assert_eq!(asked.len(), 10);
    assert_eq!(tournament.comparison_count, 10);

    let mut capped = Tournament::start(&records, no_preferences(), true).unwrap();
    capped.max_comparisons = 1;
    let pair = capped.pending().unwrap();
    assert!(capped.answer(pair, Choice::PreferA, 500_000));
    assert_eq!(capped.pending(), None);

    let mut stopped = Tournament::start(&records, no_preferences(), true).unwrap();
    let pair = stopped.pending().unwrap();
    assert!(!stopped.answer(pair, Choice::Quit, 0));
    assert!(stopped.quit);
    assert_eq!(stopped.pending(), None);
    assert!(stopped.preferences.comparisons.is_empty());
    assert!(stopped.compared.is_empty());
}

#[test]
fn test_exhaustive_tournament_flow() {
    let records = vec![
        record("a", "active", Some(5000), Some(all_scores(5000))),
        record("b", "active", Some(6000), Some(all_scores(5000))),
        record("c", "active", Some(7000), Some(all_scores(5000))),
        record("d", "active", Some(8000), Some(all_scores(5000))),
    ];
    let preferences = Preferences {
        comparisons: vec![comparison("b", "a", "b"), comparison("c", "d", "d")],
        elo_ratings: Vec::new(),
    };
    assert!(was_recorded(&preferences.comparisons, "a", "b"));
    assert!(!was_recorded(&preferences.comparisons, "a", "c"));
    let broken = vec![Comparison { idea_a: Some("a".into()), idea_b: None, winner: None }];
    assert!(!was_recorded(&broken, "a", ""));
    let ids = names(&["a", "b", "c", "d"]);
    assert_eq!(next_unrecorded(&ids, &preferences.comparisons, (0, 1)), Some((0, 2)));
    assert_eq!(next_unrecorded(&ids, &preferences.comparisons, (0, 4)), Some((1, 2)));
    assert_eq!(next_unrecorded(&ids, &preferences.comparisons, (2, 3)), None);
    assert_eq!(next_unrecorded(&ids, &preferences.comparisons, (9, 0)), None);
    assert_eq!(next_unrecorded(&ids, &preferences.comparisons, (1, 0)), Some((1, 2)));

    let mut tournament = Tournament::start(&records, preferences, false).unwrap();
    assert!(!tournament.pairwise);
    assert!(tournament.compared.is_empty());
    assert_eq!(tournament.cursor, (0, 1));
    let mut asked = Vec::new();
    let answers = [Choice::PreferA, Choice::Skip, Choice::Invalid, Choice::PreferB];
    for choice in answers {
        let pair = tournament.pending().unwrap();
        asked.push(pair);
        // In an exhaustive tournament every answer but a quit is kept.
        assert!(tournament.answer(pair, choice, 500_000));
    }
    assert_eq!(asked, vec![(0, 2), (0, 3), (1, 2), (1, 3)]);
    assert_eq!(tournament.pending(), None);
    assert_eq!(tournament.comparison_count, 2);
    assert_eq!(
        &tournament.preferences.comparisons[2..],
        &[comparison("a", "c", "a"), comparison("b", "d", "d")]
    );
    assert_eq!(lookup_rating(&tournament.preferences.elo_ratings, "a"), elo(1016.0));
    assert_eq!(lookup_rating(&tournament.preferences.elo_ratings, "c"), elo(984.0));
    assert_eq!(lookup_rating(&tournament.preferences.elo_ratings, "d"), elo(1016.0));
    assert_eq!(lookup_rating(&tournament.preferences.elo_ratings, "b"), elo(984.0));
    let table = &tournament.preferences.elo_ratings;
    let ranked: Vec<&str> = standings(table, &tournament.ids)
        .iter()
        .map(|k| table[*k].id.as_str())
        .collect();
    // Equal ratings keep the order of the table.
    assert_eq!(ranked, vec!["a", "d", "b", "c"]);

    let mut stopped = Tournament::start(&records, no_preferences(), false).unwrap();
    let pair = stopped.pending().unwrap();
    assert_eq!(pair, (0, 1));
    assert!(!stopped.answer(pair, Choice::Quit, 0));
    assert_eq!(stopped.pending(), None);
    assert_eq!(stopped.cursor, (0, 1));
}

#[test]
fn test_check_pair_guards_the_range() {
    let records = vec![
        record("a", "active", Some(5000), Some(all_scores(5000))),
        record("b", "active", Some(6000), Some(all_scores(5000))),
        record("c", "active", Some(7000), Some(all_scores(5000))),
    ];
    let preferences = Preferences {
        comparisons: Vec::new(),
        elo_ratings: vec![Rating { id: "b".into(), elo: i64::MAX - 10 }],
    };
    let mut tournament = Tournament::start(&records, preferences, false).unwrap();
    assert!(!tournament.check_pair((0, 1)));
    assert!(!tournament.check_pair((1, 2)));
    assert!(tournament.check_pair((0, 2)));
    // Only a preference needs the room: a skip, an invalid answer and a
    // quit are taken whatever the ratings and the count are.
    tournament.comparison_count = usize::MAX;
    assert!(!tournament.check_pair((0, 2)));
    assert!(tournament.answer((0, 1), Choice::Skip, u32::MAX));
    assert!(tournament.answer((0, 2), Choice::Invalid, u32::MAX));
    assert!(!tournament.answer((1, 2), Choice::Quit, u32::MAX));
    assert_eq!(tournament.comparison_count, usize::MAX);
    assert_eq!(tournament.preferences.elo_ratings[0].elo, i64::MAX - 10);
    assert!(tournament.preferences.comparisons.is_empty());

    let preferences = Preferences {
        comparisons: Vec::new(),
        elo_ratings: vec![Rating { id: "b".into(), elo: i64::MAX - K_FACTOR }],
    };
    let tournament = Tournament::start(&records, preferences, true).unwrap();
    assert!(tournament.check_pair((0, 1)));
    let preferences = Preferences {
        comparisons: Vec::new(),
        elo_ratings: vec![Rating { id: "a".into(), elo: i64::MIN + K_FACTOR - 1 }],
    };
    let tournament = Tournament::start(&records, preferences, true).unwrap();
    assert!(!tournament.check_pair((0, 1)));
}

#[test]
fn test_count_rated_counts_each_identifier_once() {
    assert_eq!(count_rated(&Vec::new()), 0);
    assert_eq!(count_rated(&ratings_of(&[("a", 1.0), ("b", 2.0), ("c", 3.0)])), 3);
    assert_eq!(
        count_rated(&ratings_of(&[("a", 1.0), ("b", 2.0), ("a", 3.0), ("a", 4.0), ("b", 5.0)])),
        2
    );
    // The library's own updates never give an identifier a second entry.
    let mut preferences = Preferences {
        comparisons: Vec::new(),
        elo_ratings: ratings_of(&[("a", 1000.0)]),
    };
    update_elo(&mut preferences, "a", "b", 500_000);
    update_elo(&mut preferences, "b", "a", 500_000);
    update_elo(&mut preferences, "c", "b", 500_000);
    assert_eq!(preferences.elo_ratings.len(), 3);
    assert_eq!(count_rated(&preferences.elo_ratings), 3);
}
