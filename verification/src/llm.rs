//! The interface to the idea generator: the tasks it is given, what it
//! answers, how answers become ideas and scores, and a deterministic mock.

use vstd::prelude::*;
use vstd::string::StringExecFns;
use crate::data::Facets;
use crate::data::FacetsView;
use crate::data::hyphenated_text;
use crate::data::id_text;
use crate::data::Idea;
use crate::data::Origin;
use crate::data::parse_id;
use crate::data::parsed_id;
use crate::data::Scores;
use crate::text::compare_text;
use crate::text::decimal;
use crate::text::decimal_text;
use crate::text::join;
use crate::text::TextOrder;

verus! {

/// A task for the generator.
#[derive(Debug)]
pub enum LlmTask {
    /// Produce `count` new ideas for the prompt.
    Generate { prompt: String, count: usize },
    /// Score the ideas given as identifier, title and summary.
    Critic { ideas: Vec<(u128, String, String)> },
    /// Merge two ideas, each given as title, summary and facets.
    Merge { idea_a: (String, String, Facets), idea_b: (String, String, Facets) },
    /// Mutate one facet of an idea given as title, summary and facets.
    Mutate { idea: (String, String, Facets), mutation_type: String },
    /// Improve an idea along the judge's notes.
    Refine { idea_id: u128, title: String, summary: String, facets: Facets, judge_notes: String },
}

/// The facets of an answer, each present or not.
#[derive(Debug, Clone, PartialEq, Eq)]
pub struct FacetsDraft {
    pub audience: Option<String>,
    pub jtbd: Option<String>,
    pub differentiator: Option<String>,
    pub monetization: Option<String>,
    pub distribution: Option<String>,
    pub risks: Option<String>,
}

/// One idea of an answer, each part present or not.
#[derive(Debug, Clone, PartialEq, Eq)]
pub struct IdeaDraft {
    pub title: Option<String>,
    pub summary: Option<String>,
    pub facets: Option<FacetsDraft>,
}

/// The criterion scores of an answer, each present or not, in thousandths of
/// a point.
#[derive(Debug, Clone, Copy, PartialEq, Eq, Structural)]
pub struct ScoresDraft {
    pub feasibility: Option<i32>,
    pub speed_to_value: Option<i32>,
    pub differentiation: Option<i32>,
    pub market_size: Option<i32>,
    pub distribution: Option<i32>,
    pub moats: Option<i32>,
    pub risk: Option<i32>,
    pub clarity: Option<i32>,
}

/// The scores that the critic gives to one idea.
#[derive(Debug, Clone, PartialEq, Eq)]
pub struct ScorePatch {
    /// The text of the idea's identifier.
    pub id: Option<String>,
    pub scores: Option<ScoresDraft>,
    pub overall_score: Option<i64>,
    pub judge_notes: Option<String>,
}

/// An answer of the generator: the parts that the pipeline reads, each
/// present or not.
#[derive(Debug, Clone, PartialEq, Eq)]
pub struct LlmOutput {
    /// The new ideas, in answer to `Generate`.
    pub ideas: Option<Vec<IdeaDraft>>,
    /// The score patches, in answer to `Critic`.
    pub patches: Option<Vec<ScorePatch>>,
    /// The improved idea, in answer to `Refine`.
    pub patch: Option<IdeaDraft>,
    /// The merged or mutated idea, in answer to `Merge` and `Mutate`.
    pub idea: Option<IdeaDraft>,
    /// The facet that was mutated, in answer to `Mutate`.
    pub mutation_type: Option<String>,
}

/// Why an answer could not be had or used.
#[derive(Debug, Clone, PartialEq, Eq)]
pub enum LlmError {
    /// The answer to `Generate` holds no list of ideas.
    MissingIdeas,
    /// The answer to `Critic` holds no list of patches.
    MissingPatches,
    /// A patch names no idea.
    PatchMissingId,
    /// A patch names its idea by a text that is no identifier.
    InvalidPatchId,
    /// The provider itself failed.
    Provider { message: String },
}

impl LlmError {
    /// The error in words.
    pub open spec fn message(self) -> Seq<char> {
        match self {
            LlmError::MissingIdeas => "Expected 'ideas' array in output"@,
            LlmError::MissingPatches => "Expected 'patches' array in output"@,
            LlmError::PatchMissingId => "Patch missing 'id'"@,
            LlmError::InvalidPatchId => "Patch 'id' is not a valid identifier"@,
            LlmError::Provider { message } => message@,
        }
    }

    /// The error in words.
    pub fn describe(&self) -> (text: String)
        ensures
            text@ == self.message(),
    {
        match self {
            LlmError::MissingIdeas => String::from_str("Expected 'ideas' array in output"),
            LlmError::MissingPatches => String::from_str("Expected 'patches' array in output"),
            LlmError::PatchMissingId => String::from_str("Patch missing 'id'"),
            LlmError::InvalidPatchId => String::from_str("Patch 'id' is not a valid identifier"),
            LlmError::Provider { message } => message.clone(),
        }
    }
}

/// A source of answers: given a task and the path of the schema that the
/// answer must follow, it returns the answer or fails.
pub trait LlmProvider: Send + Sync {
    /// Answers `task`. What comes back is the provider's to decide: callers
    /// are verified for every answer and every failure.
    fn generate_json(&self, task: LlmTask, schema_path: &str) -> Result<LlmOutput, LlmError>;
}

/// The text of `value`, or `fallback` where there is none.
pub open spec fn text_or(value: Option<String>, fallback: Seq<char>) -> Seq<char> {
    match value {
        Some(text) => text@,
        None => fallback,
    }
}

impl FacetsDraft {
    /// The facets of the draft, each missing one taken from `fallback`.
    pub open spec fn filled(self, fallback: FacetsView) -> FacetsView {
        FacetsView {
            audience: text_or(self.audience, fallback.audience),
            jtbd: text_or(self.jtbd, fallback.jtbd),
            differentiator: text_or(self.differentiator, fallback.differentiator),
            monetization: text_or(self.monetization, fallback.monetization),
            distribution: text_or(self.distribution, fallback.distribution),
            risks: text_or(self.risks, fallback.risks),
        }
    }
}

/// The facets of `draft` over `fallback`: where the draft has no facets at
/// all, the fallback as it is.
pub open spec fn facets_or(draft: Option<FacetsDraft>, fallback: FacetsView) -> FacetsView {
    match draft {
        Some(facets) => facets.filled(fallback),
        None => fallback,
    }
}

/// Six empty facets.
pub open spec fn empty_facets() -> FacetsView {
    FacetsView {
        audience: Seq::empty(),
        jtbd: Seq::empty(),
        differentiator: Seq::empty(),
        monetization: Seq::empty(),
        distribution: Seq::empty(),
        risks: Seq::empty(),
    }
}

impl ScoresDraft {
    /// The scores of the draft, each missing one taken as zero.
    pub open spec fn or_zero(self) -> Scores {
        Scores {
            feasibility: number_or_zero(self.feasibility),
            speed_to_value: number_or_zero(self.speed_to_value),
            differentiation: number_or_zero(self.differentiation),
            market_size: number_or_zero(self.market_size),
            distribution: number_or_zero(self.distribution),
            moats: number_or_zero(self.moats),
            risk: number_or_zero(self.risk),
            clarity: number_or_zero(self.clarity),
        }
    }

    /// All eight scores are present.
    pub open spec fn is_complete(self) -> bool {
        &&& self.feasibility is Some
        &&& self.speed_to_value is Some
        &&& self.differentiation is Some
        &&& self.market_size is Some
        &&& self.distribution is Some
        &&& self.moats is Some
        &&& self.risk is Some
        &&& self.clarity is Some
    }

    /// The scores of the draft, each missing one taken as zero.
    pub fn to_scores(&self) -> (scores: Scores)
        ensures
            scores == self.or_zero(),
    {
        Scores {
            feasibility: or_zero(self.feasibility),
            speed_to_value: or_zero(self.speed_to_value),
            differentiation: or_zero(self.differentiation),
            market_size: or_zero(self.market_size),
            distribution: or_zero(self.distribution),
            moats: or_zero(self.moats),
            risk: or_zero(self.risk),
            clarity: or_zero(self.clarity),
        }
    }
}

/// The number, or zero where there is none.
pub open spec fn number_or_zero(value: Option<i32>) -> i32 {
    match value {
        Some(number) => number,
        None => 0,
    }
}

/// The number, or zero where there is none.
fn or_zero(value: Option<i32>) -> (number: i32)
    ensures
        number == number_or_zero(value),
{
    match value {
        Some(number) => number,
        None => 0,
    }
}

/// A copy of the text of `value`, or `fallback` where there is none.
pub fn text_or_else(value: &Option<String>, fallback: &str) -> (text: String)
    ensures
        text@ == text_or(*value, fallback@),
{
    match value {
        Some(text) => text.clone(),
        None => String::from_str(fallback),
    }
}

/// The facets of `draft`, each missing one taken from `fallback`.
pub fn fill_facets(draft: &Option<FacetsDraft>, fallback: &Facets) -> (facets: Facets)
    ensures
        facets@ == facets_or(*draft, fallback@),
{
    match draft {
        Some(d) => Facets {
            audience: text_or_else(&d.audience, fallback.audience.as_str()),
            jtbd: text_or_else(&d.jtbd, fallback.jtbd.as_str()),
            differentiator: text_or_else(&d.differentiator, fallback.differentiator.as_str()),
            monetization: text_or_else(&d.monetization, fallback.monetization.as_str()),
            distribution: text_or_else(&d.distribution, fallback.distribution.as_str()),
            risks: text_or_else(&d.risks, fallback.risks.as_str()),
        },
        None => fallback.duplicate(),
    }
}

/// The idea `idea` is what the draft `draft` says, born in round `gen`: a
/// generated, active, unscored idea without parents; a missing title reads
/// "Untitled", every other missing text is empty.
pub open spec fn is_generated_from(idea: Idea, draft: IdeaDraft, gen: u32) -> bool {
    idea.is_fresh(
        idea.id,
        text_or(draft.title, "Untitled"@),
        text_or(draft.summary, Seq::empty()),
        facets_or(draft.facets, empty_facets()),
        gen,
        Origin::Generated,
    )
}

/// The ideas `ideas` are what the drafts say, one for one and in order.
pub open spec fn are_generated_from(ideas: Seq<Idea>, drafts: Seq<IdeaDraft>, gen: u32) -> bool {
    &&& ideas.len() == drafts.len()
    &&& forall|k: int| 0 <= k < ideas.len() ==> is_generated_from(#[trigger] ideas[k], drafts[k], gen)
}

/// Six empty facets.
fn blank_facets() -> (facets: Facets)
    ensures
        facets@ == empty_facets(),
{
    Facets {
        audience: String::new(),
        jtbd: String::new(),
        differentiator: String::new(),
        monetization: String::new(),
        distribution: String::new(),
        risks: String::new(),
    }
}

/// Turns the answer to a `Generate` task into ideas of round `gen`, one for
/// each draft and in their order, each under a fresh random identifier.
/// Fails where the answer holds no list of ideas.
pub fn parse_generated_ideas(output: &LlmOutput, gen: u32) -> (result: Result<Vec<Idea>, LlmError>)
    ensures
        output.ideas is None <==> result is Err,
        result is Err ==> result == Err::<Vec<Idea>, LlmError>(LlmError::MissingIdeas),
        result is Ok ==> are_generated_from(result->Ok_0@, output.ideas->0@, gen),
{
    match &output.ideas {
        None => Err(LlmError::MissingIdeas),
        Some(drafts) => {
            let mut ideas: Vec<Idea> = Vec::new();
            let blank = blank_facets();
            let mut k: usize = 0;
            while k < drafts.len()
                invariant
                    k <= drafts.len(),
                    blank@ == empty_facets(),
                    are_generated_from(ideas@, drafts@.take(k as int), gen),
                decreases drafts.len() - k,
            {
                let draft = &drafts[k];
                proof {
                    reveal_strlit("");
                    assert(""@ =~= Seq::<char>::empty());
                }
                let title = text_or_else(&draft.title, "Untitled");
                let summary = text_or_else(&draft.summary, "");
                let facets = fill_facets(&draft.facets, &blank);
                ideas.push(Idea::new(title, summary, facets, gen, Origin::Generated));
                k += 1;
            }
            proof {
                assert(drafts@.take(k as int) == drafts@);
            }
            Ok(ideas)
        },
    }
}

/// The idea with the scores, the overall score and the judge's notes of the
/// patch. Where the patch has no scores the idea keeps its own; a missing
/// single score counts as zero; the overall score and the notes are taken as
/// they are, present or not.
pub open spec fn patched(idea: Idea, patch: ScorePatch) -> Idea {
    Idea {
        scores: match patch.scores {
            Some(draft) => draft.or_zero(),
            None => idea.scores,
        },
        overall_score: patch.overall_score,
        judge_notes: patch.judge_notes,
        ..idea
    }
}

/// The place of the first idea at or behind `from` with the identifier `id`.
pub open spec fn position_of(ideas: Seq<Idea>, id: u128, from: int) -> Option<int>
    decreases ideas.len() - from,
{
    if from < 0 || from >= ideas.len() {
        None
    } else if ideas[from].id == id {
        Some(from)
    } else {
        position_of(ideas, id, from + 1)
    }
}

/// What one patch makes of the ideas: an error where the patch names no idea
/// or names it by a text that is no identifier; else the ideas, with the
/// first idea of that identifier patched, or unchanged where none has it.
pub open spec fn apply_patch(ideas: Seq<Idea>, patch: ScorePatch) -> Result<Seq<Idea>, LlmError> {
    match patch.id {
        None => Err(LlmError::PatchMissingId),
        Some(text) => match parsed_id(text@) {
            None => Err(LlmError::InvalidPatchId),
            Some(id) => match position_of(ideas, id, 0) {
                Some(at) => Ok(ideas.update(at, patched(ideas[at], patch))),
                None => Ok(ideas),
            },
        },
    }
}

/// What the first `n` patches make of the ideas, applied in order: the ideas
/// as the patches before the first faulty one leave them, and the error of
/// that faulty patch, if there is one.
pub open spec fn apply_patches(ideas: Seq<Idea>, patches: Seq<ScorePatch>, n: nat) -> (Seq<Idea>, Option<LlmError>)
    decreases n,
{
    if n == 0 {
        (ideas, None)
    } else {
        let before = apply_patches(ideas, patches, (n - 1) as nat);
        match before.1 {
            Some(_) => before,
            None => match apply_patch(before.0, patches[n - 1]) {
                Ok(next) => (next, None),
                Err(error) => (before.0, Some(error)),
            },
        }
    }
}

/// Where an idea with the identifier is found, it is found at a place of the
/// list.
proof fn lemma_position_in_range(ideas: Seq<Idea>, id: u128, from: int)
    requires
        0 <= from,
    ensures
        position_of(ideas, id, from) is Some ==> from <= position_of(ideas, id, from)->0
            < ideas.len(),
    decreases ideas.len() - from,
{
    if from < ideas.len() && ideas[from].id != id {
        lemma_position_in_range(ideas, id, from + 1);
    }
}

/// Patches change scores, overall scores and notes only: the ideas stay as
/// many as they were, and each keeps its identifier, its status, its origin
/// and its parents.
pub proof fn lemma_patches_keep_ideas(ideas: Seq<Idea>, patches: Seq<ScorePatch>, n: nat)
    requires
        n <= patches.len(),
    ensures
        apply_patches(ideas, patches, n).0.len() == ideas.len(),
        forall|k: int|
            0 <= k < ideas.len() ==> {
                let after = #[trigger] apply_patches(ideas, patches, n).0[k];
                &&& after.id == ideas[k].id
                &&& after.status == ideas[k].status
                &&& after.origin == ideas[k].origin
                &&& after.parents == ideas[k].parents
            },
    decreases n,
{
    if n > 0 {
        lemma_patches_keep_ideas(ideas, patches, (n - 1) as nat);
        let before = apply_patches(ideas, patches, (n - 1) as nat);
        if before.1 is None {
            let patch = patches[n - 1];
            if patch.id is Some && parsed_id(patch.id->0@) is Some {
                lemma_position_in_range(before.0, parsed_id(patch.id->0@)->0, 0);
            }
        }
    }
}

/// Once a patch was faulty, the patches behind it change nothing.
proof fn lemma_error_ends_patching(ideas: Seq<Idea>, patches: Seq<ScorePatch>, k: nat, n: nat)
    requires
        k <= n,
        apply_patches(ideas, patches, k).1 is Some,
    ensures
        apply_patches(ideas, patches, n) == apply_patches(ideas, patches, k),
    decreases n,
{
    if k < n {
        lemma_error_ends_patching(ideas, patches, k, (n - 1) as nat);
    }
}

/// The place of the first idea with the identifier `id`.
fn find_idea(ideas: &Vec<Idea>, id: u128) -> (at: Option<usize>)
    ensures
        at is Some <==> position_of(ideas@, id, 0) is Some,
        at is Some ==> at->0 == position_of(ideas@, id, 0)->0 && at->0 < ideas@.len(),
{
    let mut k: usize = 0;
    while k < ideas.len()
        invariant
            k <= ideas.len(),
            position_of(ideas@, id, 0) == position_of(ideas@, id, k as int),
        decreases ideas.len() - k,
    {
        if ideas[k].id == id {
            return Some(k);
        }
        k += 1;
    }
    None
}

/// Applies the answer to a `Critic` task to the ideas, patch by patch and in
/// order. Fails where the answer holds no list of patches (the ideas are then
/// untouched), and at the first patch that names no idea or names it by a
/// text that is no identifier (the patches before it stay applied).
pub fn apply_critic_patches(ideas: &mut Vec<Idea>, output: &LlmOutput) -> (result: Result<
    (),
    LlmError,
>)
    ensures
        output.patches is None ==> result == Err::<(), LlmError>(LlmError::MissingPatches)
            && final(ideas)@ == old(ideas)@,
        output.patches is Some ==> {
            let outcome = apply_patches(old(ideas)@, output.patches->0@, output.patches->0@.len());
            &&& final(ideas)@ == outcome.0
            &&& result == match outcome.1 {
                Some(error) => Err::<(), LlmError>(error),
                None => Ok::<(), LlmError>(()),
            }
        },
        final(ideas)@.len() == old(ideas)@.len(),
{
    match &output.patches {
        None => Err(LlmError::MissingPatches),
        Some(patches) => {
            let mut k: usize = 0;
            while k < patches.len()
                invariant
                    k <= patches.len(),
                    output.patches == Some(*patches),
                    apply_patches(old(ideas)@, patches@, k as nat) == (ideas@, None::<LlmError>),
                    ideas@.len() == old(ideas)@.len(),
                decreases patches.len() - k,
            {
                let patch = &patches[k];
                let id = match &patch.id {
                    None => {
                        proof {
                            lemma_error_ends_patching(
                                old(ideas)@,
                                patches@,
                                (k + 1) as nat,
                                patches@.len(),
                            );
                        }
                        return Err(LlmError::PatchMissingId);
                    },
                    Some(text) => match parse_id(text.as_str()) {
                        None => {
                            proof {
                                lemma_error_ends_patching(
                                    old(ideas)@,
                                    patches@,
                                    (k + 1) as nat,
                                    patches@.len(),
                                );
                            }
                            return Err(LlmError::InvalidPatchId);
                        },
                        Some(id) => id,
                    },
                };
                match find_idea(ideas, id) {
                    Some(at) => {
                        let ghost held = ideas@;
                        if let Some(draft) = &patch.scores {
                            ideas[at].scores = draft.to_scores();
                        }
                        ideas[at].overall_score = patch.overall_score;
                        ideas[at].judge_notes = match &patch.judge_notes {
                            Some(notes) => Some(notes.clone()),
                            None => None,
                        };
                        proof {
                            assert(ideas@ =~= held.update(at as int, patched(held[at as int], *patch)));
                        }
                    },
                    None => {},
                }
                k += 1;
            }
            Ok(())
        },
    }
}

/// A deterministic stand-in for the generator. It counts the `Generate`
/// tasks it has answered and writes that number into the ideas it makes up.
pub struct MockLlmProvider {
    gen_counter: std::sync::atomic::AtomicU32,
}

/// `value` held between `low` and `high`.
pub open spec fn clamped(value: int, low: int, high: int) -> int {
    if value < low {
        low
    } else if value > high {
        high
    } else {
        value
    }
}

/// The score that the mock's scores are built around: 7 points for the first
/// idea of a batch, and three tenths more for each one behind it.
pub open spec fn mock_base(idx: nat) -> int {
    7000 + 300 * (idx as int)
}

/// The scores the mock gives to the idea at place `idx` of a batch.
pub open spec fn mock_scores_draft(idx: nat) -> ScoresDraft {
    let base = mock_base(idx);
    ScoresDraft {
        feasibility: Some(clamped(base, base, 10000) as i32),
        speed_to_value: Some(clamped(base - 500, 0, 10000) as i32),
        differentiation: Some(clamped(base + 200, base + 200, 10000) as i32),
        market_size: Some(clamped(base - 300, 0, 10000) as i32),
        distribution: Some(clamped(base, base, 10000) as i32),
        moats: Some(clamped(base - 1000, 0, 10000) as i32),
        risk: Some(clamped(5000 - 200 * (idx as int), 1000, 10000) as i32),
        clarity: Some(clamped(base + 500, base + 500, 10000) as i32),
    }
}

/// The title of the mock idea at place `idx` of the batch number `gen`.
pub open spec fn mock_title(idx: nat, gen: nat) -> Seq<char> {
    "Mock Idea "@ + decimal(idx) + " (gen "@ + decimal(gen) + ")"@
}

/// The summary of the mock idea at place `idx` of the batch number `gen`.
pub open spec fn mock_summary(idx: nat, gen: nat) -> Seq<char> {
    "This is mock idea "@ + decimal(idx) + " generated in generation "@ + decimal(gen)
}

/// The facets that every mock idea has.
pub open spec fn mock_facets() -> FacetsView {
    FacetsView {
        audience: "Developers"@,
        jtbd: "Automate repetitive tasks"@,
        differentiator: "AI-powered automation"@,
        monetization: "SaaS subscription"@,
        distribution: "Developer communities"@,
        risks: "Competition from incumbents"@,
    }
}

impl FacetsDraft {
    /// All six facets are present and read as `facets`.
    pub open spec fn reads(self, facets: FacetsView) -> bool {
        &&& self.audience is Some && self.audience->0@ == facets.audience
        &&& self.jtbd is Some && self.jtbd->0@ == facets.jtbd
        &&& self.differentiator is Some && self.differentiator->0@ == facets.differentiator
        &&& self.monetization is Some && self.monetization->0@ == facets.monetization
        &&& self.distribution is Some && self.distribution->0@ == facets.distribution
        &&& self.risks is Some && self.risks->0@ == facets.risks
    }
}

impl IdeaDraft {
    /// Title, summary and facets are all present and read as given.
    pub open spec fn reads(self, title: Seq<char>, summary: Seq<char>, facets: FacetsView) -> bool {
        &&& self.title is Some && self.title->0@ == title
        &&& self.summary is Some && self.summary->0@ == summary
        &&& self.facets is Some && self.facets->0.reads(facets)
    }
}

/// The patch is the one the mock writes for the idea `id` at place `idx` of
/// a batch.
pub open spec fn is_mock_patch(patch: ScorePatch, id: u128, idx: nat) -> bool {
    &&& patch.id is Some && patch.id->0@ == hyphenated_text(id)
    &&& parsed_id(patch.id->0@) == Some(id)
    &&& patch.scores == Some(mock_scores_draft(idx))
    &&& patch.overall_score == Some(clamped(mock_base(idx), mock_base(idx), 10000) as i64)
    &&& patch.judge_notes is Some && patch.judge_notes->0@ == "Mock evaluation for idea "@
        + hyphenated_text(id)
}

/// The facets `facets` with " (mutated)" put behind the one that `kind`
/// names; unchanged where it names none of audience, monetization,
/// distribution, differentiator and jtbd.
pub open spec fn mutated_facets(facets: FacetsView, kind: Seq<char>) -> FacetsView {
    if kind == "audience"@ {
        FacetsView { audience: facets.audience + " (mutated)"@, ..facets }
    } else if kind == "monetization"@ {
        FacetsView { monetization: facets.monetization + " (mutated)"@, ..facets }
    } else if kind == "distribution"@ {
        FacetsView { distribution: facets.distribution + " (mutated)"@, ..facets }
    } else if kind == "differentiator"@ {
        FacetsView { differentiator: facets.differentiator + " (mutated)"@, ..facets }
    } else if kind == "jtbd"@ {
        FacetsView { jtbd: facets.jtbd + " (mutated)"@, ..facets }
    } else {
        facets
    }
}

/// The facets of the mock's merge of two ideas.
pub open spec fn merged_facets(a: FacetsView, b: FacetsView) -> FacetsView {
    FacetsView {
        audience: a.audience,
        jtbd: b.jtbd,
        differentiator: a.differentiator + " with "@ + b.differentiator,
        monetization: a.monetization,
        distribution: b.distribution,
        risks: a.risks + " and "@ + b.risks,
    }
}

/// `output` is what the mock answers to `task` as its batch number `gen`.
pub open spec fn is_mock_answer(task: LlmTask, gen: u32, output: LlmOutput) -> bool {
    match task {
        LlmTask::Generate { prompt, count } => {
            &&& output.ideas is Some
            &&& output.ideas->0@.len() == count
            &&& forall|k: int|
                0 <= k < count ==> (#[trigger] output.ideas->0@[k]).reads(
                    mock_title(k as nat, gen as nat),
                    mock_summary(k as nat, gen as nat),
                    mock_facets(),
                )
            &&& output.patches is None
            &&& output.patch is None
            &&& output.idea is None
            &&& output.mutation_type is None
        },
        LlmTask::Critic { ideas } => {
            &&& output.patches is Some
            &&& output.patches->0@.len() == ideas@.len()
            &&& forall|k: int|
                0 <= k < ideas@.len() ==> is_mock_patch(
                    #[trigger] output.patches->0@[k],
                    ideas@[k].0,
                    k as nat,
                )
            &&& output.ideas is None
            &&& output.patch is None
            &&& output.idea is None
            &&& output.mutation_type is None
        },
        LlmTask::Merge { idea_a, idea_b } => {
            &&& output.idea is Some
            &&& output.idea->0.reads(
                idea_a.0@ + " + "@ + idea_b.0@,
                "Merged: "@ + idea_a.1@ + " and "@ + idea_b.1@,
                merged_facets(idea_a.2@, idea_b.2@),
            )
            &&& output.ideas is None
            &&& output.patches is None
            &&& output.patch is None
            &&& output.mutation_type is None
        },
        LlmTask::Mutate { idea, mutation_type } => {
            &&& output.idea is Some
            &&& output.idea->0.reads(
                idea.0@ + " (mutated)"@,
                idea.1@,
                mutated_facets(idea.2@, mutation_type@),
            )
            &&& output.mutation_type is Some && output.mutation_type->0@ == mutation_type@
            &&& output.ideas is None
            &&& output.patches is None
            &&& output.patch is None
        },
        LlmTask::Refine { idea_id, title, summary, facets, judge_notes } => {
            &&& output.patch is Some
            &&& output.patch->0.reads(
                title@ + " (refined)"@,
                summary@ + " Improvements based on: "@ + judge_notes@,
                facets@,
            )
            &&& output.ideas is None
            &&& output.patches is None
            &&& output.idea is None
            &&& output.mutation_type is None
        },
    }
}

/// A draft with all six facets present, read from `facets`.
fn draft_of_facets(facets: Facets) -> (draft: FacetsDraft)
    ensures
        draft.reads(facets@),
{
    FacetsDraft {
        audience: Some(facets.audience),
        jtbd: Some(facets.jtbd),
        differentiator: Some(facets.differentiator),
        monetization: Some(facets.monetization),
        distribution: Some(facets.distribution),
        risks: Some(facets.risks),
    }
}

/// An answer without any part.
fn empty_output() -> (output: LlmOutput)
    ensures
        output.ideas is None,
        output.patches is None,
        output.patch is None,
        output.idea is None,
        output.mutation_type is None,
{
    LlmOutput { ideas: None, patches: None, patch: None, idea: None, mutation_type: None }
}

/// `value` held between `low` and `high`.
fn clamp(value: i32, low: i32, high: i32) -> (held: i32)
    ensures
        held == clamped(value as int, low as int, high as int),
{
    if value < low {
        low
    } else if value > high {
        high
    } else {
        value
    }
}

impl MockLlmProvider {
    /// A mock that has answered no task yet.
    pub fn new() -> Self {
        MockLlmProvider { gen_counter: std::sync::atomic::AtomicU32::new(0) }
    }

    /// The number of `Generate` tasks answered so far, counting this one in
    /// from now on.
    fn next_generation(&self) -> u32 {
        self.gen_counter.fetch_add(1, std::sync::atomic::Ordering::SeqCst)
    }

    /// The mock idea at place `idx` of the batch number `gen`.
    pub fn make_mock_idea(idx: usize, gen: u32) -> (draft: IdeaDraft)
        ensures
            draft.reads(mock_title(idx as nat, gen as nat), mock_summary(idx as nat, gen as nat), mock_facets()),
    {
        let idx_text = decimal_text(idx as u64);
        let gen_text = decimal_text(gen as u64);
        let title = join("Mock Idea ", idx_text.as_str()).concat(" (gen ").concat(
            gen_text.as_str(),
        ).concat(")");
        let summary = join("This is mock idea ", idx_text.as_str()).concat(
            " generated in generation ",
        ).concat(gen_text.as_str());
        let facets = Facets {
            audience: String::from_str("Developers"),
            jtbd: String::from_str("Automate repetitive tasks"),
            differentiator: String::from_str("AI-powered automation"),
            monetization: String::from_str("SaaS subscription"),
            distribution: String::from_str("Developer communities"),
            risks: String::from_str("Competition from incumbents"),
        };
        IdeaDraft { title: Some(title), summary: Some(summary), facets: Some(draft_of_facets(facets)) }
    }

    /// The mock patch for the idea `id` at place `idx` of a batch.
    pub fn make_mock_scores(id: u128, idx: usize) -> (patch: ScorePatch)
        ensures
            is_mock_patch(patch, id, idx as nat),
    {
        let capped: i32 = if idx > 100 {
            100
        } else {
            idx as i32
        };
        let base: i32 = 7000 + 300 * capped;
        let risk: i32 = 5000 - 200 * capped;
        let scores = ScoresDraft {
            feasibility: Some(clamp(base, base, 10000)),
            speed_to_value: Some(clamp(base - 500, 0, 10000)),
            differentiation: Some(clamp(base + 200, base + 200, 10000)),
            market_size: Some(clamp(base - 300, 0, 10000)),
            distribution: Some(clamp(base, base, 10000)),
            moats: Some(clamp(base - 1000, 0, 10000)),
            risk: Some(clamp(risk, 1000, 10000)),
            clarity: Some(clamp(base + 500, base + 500, 10000)),
        };
        let text = id_text(id);
        let notes = join("Mock evaluation for idea ", text.as_str());
        let overall: i64 = clamp(base, base, 10000) as i64;
        proof {
            assert(scores == mock_scores_draft(idx as nat));
        }
        ScorePatch { id: Some(text), scores: Some(scores), overall_score: Some(overall), judge_notes: Some(notes) }
    }

    /// What the mock answers to `task` as its batch number `gen`.
    pub fn answer(task: LlmTask, gen: u32) -> (output: LlmOutput)
        ensures
            is_mock_answer(task, gen, output),
    {
        let mut output = empty_output();
        match task {
            LlmTask::Generate { prompt, count } => {
                let mut drafts: Vec<IdeaDraft> = Vec::new();
                let mut k: usize = 0;
                while k < count
                    invariant
                        k <= count,
                        drafts@.len() == k,
                        forall|j: int|
                            0 <= j < k ==> (#[trigger] drafts@[j]).reads(
                                mock_title(j as nat, gen as nat),
                                mock_summary(j as nat, gen as nat),
                                mock_facets(),
                            ),
                    decreases count - k,
                {
                    drafts.push(MockLlmProvider::make_mock_idea(k, gen));
                    k += 1;
                }
                output.ideas = Some(drafts);
            },
            LlmTask::Critic { ideas } => {
                let mut patches: Vec<ScorePatch> = Vec::new();
                let mut k: usize = 0;
                while k < ideas.len()
                    invariant
                        k <= ideas.len(),
                        patches@.len() == k,
                        forall|j: int|
                            0 <= j < k ==> is_mock_patch(#[trigger] patches@[j], ideas@[j].0, j as nat),
                    decreases ideas.len() - k,
                {
                    patches.push(MockLlmProvider::make_mock_scores(ideas[k].0, k));
                    k += 1;
                }
                output.patches = Some(patches);
            },
            LlmTask::Merge { idea_a, idea_b } => {
                let title = join(idea_a.0.as_str(), " + ").concat(idea_b.0.as_str());
                let summary = join("Merged: ", idea_a.1.as_str()).concat(" and ").concat(
                    idea_b.1.as_str(),
                );
                let facets = FacetsDraft {
                    audience: Some(idea_a.2.audience.clone()),
                    jtbd: Some(idea_b.2.jtbd.clone()),
                    differentiator: Some(
                        join(idea_a.2.differentiator.as_str(), " with ").concat(
                            idea_b.2.differentiator.as_str(),
                        ),
                    ),
                    monetization: Some(idea_a.2.monetization.clone()),
                    distribution: Some(idea_b.2.distribution.clone()),
                    risks: Some(join(idea_a.2.risks.as_str(), " and ").concat(idea_b.2.risks.as_str())),
                };
                output.idea = Some(IdeaDraft { title: Some(title), summary: Some(summary), facets: Some(facets) });
            },
            LlmTask::Mutate { idea, mutation_type } => {
                let kind = mutation_type.as_str();
                let suffix = " (mutated)";
                let mut facets = idea.2.duplicate();
                if compare_text(kind, "audience") == TextOrder::Same {
                    facets.audience = join(facets.audience.as_str(), suffix);
                } else if compare_text(kind, "monetization") == TextOrder::Same {
                    facets.monetization = join(facets.monetization.as_str(), suffix);
                } else if compare_text(kind, "distribution") == TextOrder::Same {
                    facets.distribution = join(facets.distribution.as_str(), suffix);
                } else if compare_text(kind, "differentiator") == TextOrder::Same {
                    facets.differentiator = join(facets.differentiator.as_str(), suffix);
                } else if compare_text(kind, "jtbd") == TextOrder::Same {
                    facets.jtbd = join(facets.jtbd.as_str(), suffix);
                }
                let title = join(idea.0.as_str(), suffix);
                output.idea = Some(
                    IdeaDraft { title: Some(title), summary: Some(idea.1.clone()), facets: Some(draft_of_facets(facets)) },
                );
                output.mutation_type = Some(mutation_type.clone());
            },
            LlmTask::Refine { idea_id, title, summary, facets, judge_notes } => {
                let new_title = join(title.as_str(), " (refined)");
                let new_summary = join(summary.as_str(), " Improvements based on: ").concat(
                    judge_notes.as_str(),
                );
                output.patch = Some(
                    IdeaDraft {
                        title: Some(new_title),
                        summary: Some(new_summary),
                        facets: Some(draft_of_facets(facets.duplicate())),
                    },
                );
            },
        }
        output
    }
}

impl Default for MockLlmProvider {
    /// A mock that has answered no task yet.
    fn default() -> Self {
        MockLlmProvider::new()
    }
}

impl LlmProvider for MockLlmProvider {
    /// Answers every task, and never fails. A `Generate` task is answered as
    /// the next batch of the count; the other tasks do not depend on it.
    fn generate_json(&self, task: LlmTask, schema_path: &str) -> (result: Result<LlmOutput, LlmError>)
        ensures
            result is Ok,
            exists|gen: u32| #[trigger] is_mock_answer(task, gen, result->Ok_0),
    {
        let gen: u32 = match &task {
            LlmTask::Generate { .. } => self.next_generation(),
            _ => 0,
        };
        let ghost asked = task;
        let output = MockLlmProvider::answer(task, gen);
        let result = Ok(output);
        proof {
            assert(is_mock_answer(asked, gen, result->Ok_0));
        }
        result
    }
}

} // verus!
