//! Run configuration and the criterion weights of the scoring engine.

use vstd::prelude::*;
use vstd::string::StringExecFns;
use crate::data::fresh_id;

verus! {

/// One whole unit of weight: weights are fixed-point numbers counted in
/// billionths, so a weight of 1.0 is stored as this value.
pub const WEIGHT_ONE: u64 = 1_000_000_000;

/// Eight non-negative criterion weights, in billionths.
#[derive(Debug, Clone, Copy, PartialEq, Eq)]
pub struct ScoringWeights {
    pub feasibility: u64,
    pub speed_to_value: u64,
    pub differentiation: u64,
    pub market_size: u64,
    pub distribution: u64,
    pub moats: u64,
    pub risk: u64,
    pub clarity: u64,
}

impl ScoringWeights {
    /// The weights as a sequence, in the fixed criterion order.
    pub open spec fn as_seq(self) -> Seq<int> {
        seq![
            self.feasibility as int,
            self.speed_to_value as int,
            self.differentiation as int,
            self.market_size as int,
            self.distribution as int,
            self.moats as int,
            self.risk as int,
            self.clarity as int,
        ]
    }

    /// The sum of the eight weights.
    pub open spec fn total(self) -> int {
        self.feasibility + self.speed_to_value + self.differentiation + self.market_size
            + self.distribution + self.moats + self.risk + self.clarity
    }

    /// Every weight is exactly 1.0.
    pub open spec fn is_uniform(self) -> bool {
        &&& self.feasibility == WEIGHT_ONE
        &&& self.speed_to_value == WEIGHT_ONE
        &&& self.differentiation == WEIGHT_ONE
        &&& self.market_size == WEIGHT_ONE
        &&& self.distribution == WEIGHT_ONE
        &&& self.moats == WEIGHT_ONE
        &&& self.risk == WEIGHT_ONE
        &&& self.clarity == WEIGHT_ONE
    }
}

impl Default for ScoringWeights {
    /// Uniform weights: every criterion weighs 1.0.
    fn default() -> (w: Self)
        ensures
            w.is_uniform(),
    {
        ScoringWeights {
            feasibility: WEIGHT_ONE,
            speed_to_value: WEIGHT_ONE,
            differentiation: WEIGHT_ONE,
            market_size: WEIGHT_ONE,
            distribution: WEIGHT_ONE,
            moats: WEIGHT_ONE,
            risk: WEIGHT_ONE,
            clarity: WEIGHT_ONE,
        }
    }
}

/// The configuration of a run.
#[derive(Debug, Clone)]
pub struct RunConfig {
    pub run_id: u128,
    pub mode: String,
    pub prompt: String,
    pub language: String,
    pub max_rounds: u32,
    pub population_size: u32,
    pub elite_count: u32,
    pub mutation_count: u32,
    pub crossover_count: u32,
    pub wildcard_count: u32,
    pub stagnation_patience: u32,
    /// The score at which the run stops, in thousandths of a point.
    pub score_threshold: i64,
    pub search_enabled: bool,
    pub scoring_weights: ScoringWeights,
    pub output_dir: String,
}

impl RunConfig {
    /// The configuration holds the given values, and the defaults for the
    /// rest: language "en", four mutations, four crossovers, one wildcard,
    /// no search, uniform weights.
    pub open spec fn is_new(
        self,
        prompt: Seq<char>,
        mode: Seq<char>,
        max_rounds: u32,
        population_size: u32,
        elite_count: u32,
        score_threshold: i64,
        stagnation_patience: u32,
        output_dir: Seq<char>,
    ) -> bool {
        &&& self.mode@ == mode
        &&& self.prompt@ == prompt
        &&& self.language@ == "en"@
        &&& self.max_rounds == max_rounds
        &&& self.population_size == population_size
        &&& self.elite_count == elite_count
        &&& self.mutation_count == 4
        &&& self.crossover_count == 4
        &&& self.wildcard_count == 1
        &&& self.stagnation_patience == stagnation_patience
        &&& self.score_threshold == score_threshold
        &&& !self.search_enabled
        &&& self.scoring_weights.is_uniform()
        &&& self.output_dir@ == output_dir
    }

    /// A configuration under a freshly drawn random run identifier, with the
    /// given values and the defaults for the rest.
    pub fn new(
        prompt: String,
        mode: String,
        max_rounds: u32,
        population_size: u32,
        elite_count: u32,
        score_threshold: i64,
        stagnation_patience: u32,
        output_dir: String,
    ) -> (config: RunConfig)
        ensures
            config.is_new(
                prompt@,
                mode@,
                max_rounds,
                population_size,
                elite_count,
                score_threshold,
                stagnation_patience,
                output_dir@,
            ),
    {
        RunConfig {
            run_id: fresh_id(),
            mode,
            prompt,
            language: String::from_str("en"),
            max_rounds,
            population_size,
            elite_count,
            mutation_count: 4,
            crossover_count: 4,
            wildcard_count: 1,
            stagnation_patience,
            score_threshold,
            search_enabled: false,
            scoring_weights: ScoringWeights::default(),
            output_dir,
        }
    }
}

} // verus!
