//! Evolutionary idea selection and preference learning, verified.
//!
//! A population of ideas is evolved round by round: new ideas are generated,
//! a critic scores them, the best survive together with a random sample of
//! the middle of the field, and the best are refined. When a stop condition
//! holds the survivors are ranked. Afterwards a person's preferences among
//! the survivors can be learned in a pairwise tournament and turned into
//! criterion weights for the next run.
//!
//! All numbers are fixed-point integers: scores and Elo ratings in
//! thousandths, expected scores in millionths, weights and growth factors in
//! billionths. The two transcendental functions that the preference learning
//! rests on, the logistic curve of the Elo system and the exponential of the
//! weight update, are not computed here: their values are handed in.
//!
//! - [`data`], [`config`]: the ideas, the state of a run, its configuration.
//! - [`scoring`]: the overall score, the stop conditions, the selection.
//! - [`ranking`]: the one stable descending order that everything is ranked by.
//! - [`llm`]: the tasks for the idea generator, its answers, a mock generator.
//! - [`phase`], [`orchestrator`]: the five phases and the loop that runs them.
//! - [`tournament`], [`preference`]: comparisons, ratings, fitted weights.
//! - [`validation`], [`discovery`], [`storage`], [`text`]: the validation of
//!   stored runs, the constraints of a run, the file layout, text helpers.

pub mod config;
pub mod data;
pub mod discovery;
pub mod llm;
pub mod orchestrator;
pub mod phase;
pub mod preference;
pub mod ranking;
pub mod scoring;
pub mod storage;
pub mod text;
pub mod tournament;
pub mod validation;
