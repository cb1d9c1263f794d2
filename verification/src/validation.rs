//! The explicit validation pass over the ideas of a stored run: which of
//! them break the rules of the data model.

use vstd::prelude::*;
use vstd::string::StringExecFns;
use crate::llm::text_or;
use crate::llm::text_or_else;
use crate::text::join;
use crate::text::same_text;
use crate::tournament::extract_scores;
use crate::tournament::IdeaRecord;

verus! {

/// The record lists at least one parent.
pub open spec fn has_parents(record: IdeaRecord) -> bool {
    record.parent_count is Some && record.parent_count->0 > 0
}

/// The origin tag is that of an idea made from other ideas.
pub open spec fn is_derived_origin(origin: Seq<char>) -> bool {
    origin == "refined"@ || origin == "crossover"@ || origin == "mutated"@
}

/// The identifier under which a violation is reported.
pub open spec fn reported_id(record: IdeaRecord) -> Seq<char> {
    text_or(record.id, "?"@)
}

/// The violation of the parent rule by a record, if it breaks it: a
/// generated idea must list no parent, an idea made from others at least
/// one. An idea of another or no origin is not held to the rule.
pub open spec fn parent_violation(record: IdeaRecord) -> Option<Seq<char>> {
    let origin = text_or(record.origin, "?"@);
    if origin == "generated"@ {
        if has_parents(record) {
            Some("Idea "@ + reported_id(record) + " (generated) has parents"@)
        } else {
            None
        }
    } else if is_derived_origin(origin) {
        if !has_parents(record) {
            Some("Idea "@ + reported_id(record) + " ("@ + origin + ") has no parents"@)
        } else {
            None
        }
    } else {
        None
    }
}

/// The violation of the rule that an active idea has all eight scores, if
/// the record breaks it.
pub open spec fn scores_violation(record: IdeaRecord) -> Option<Seq<char>> {
    if record.is_active() && record.complete_scores() is None {
        Some("Idea "@ + reported_id(record) + " (active) has missing/invalid scores"@)
    } else {
        None
    }
}

/// The violation of the rule that an active idea has an overall score, if
/// the record breaks it.
pub open spec fn overall_violation(record: IdeaRecord) -> Option<Seq<char>> {
    if record.is_active() && record.overall_score is None {
        Some("Idea "@ + reported_id(record) + " (active) has missing/invalid overall_score"@)
    } else {
        None
    }
}

/// The list with the text added, where there is one.
pub open spec fn with_optional(list: Seq<Seq<char>>, text: Option<Seq<char>>) -> Seq<Seq<char>> {
    match text {
        Some(line) => list.push(line),
        None => list,
    }
}

/// The violations of the first `n` records, record by record; for each
/// record the parent rule first, then the scores, then the overall score.
pub open spec fn violations_among(records: Seq<IdeaRecord>, n: nat) -> Seq<Seq<char>>
    decreases n,
{
    if n == 0 {
        Seq::empty()
    } else {
        let record = records[n - 1];
        with_optional(
            with_optional(
                with_optional(violations_among(records, (n - 1) as nat), parent_violation(record)),
                scores_violation(record),
            ),
            overall_violation(record),
        )
    }
}

/// The record keeps the rules of the data model.
pub open spec fn is_sound(record: IdeaRecord) -> bool {
    parent_violation(record) is None && scores_violation(record) is None && overall_violation(
        record,
    ) is None
}

/// The validation finds nothing exactly where every record keeps the rules.
pub proof fn lemma_no_violation_iff_sound(records: Seq<IdeaRecord>, n: nat)
    requires
        n <= records.len(),
    ensures
        violations_among(records, n).len() == 0 <==> forall|k: int|
            0 <= k < n ==> is_sound(#[trigger] records[k]),
    decreases n,
{
    if n > 0 {
        lemma_no_violation_iff_sound(records, (n - 1) as nat);
        let record = records[n - 1];
        let before = violations_among(records, (n - 1) as nat);
        let first = with_optional(before, parent_violation(record));
        let second = with_optional(first, scores_violation(record));
        assert(before.len() <= first.len() <= second.len() <= violations_among(records, n).len());
        if violations_among(records, n).len() == 0 {
            assert(is_sound(record));
            assert forall|k: int| 0 <= k < n implies is_sound(#[trigger] records[k]) by {
                if k < n - 1 {
                }
            }
        }
    }
}

/// The texts of a list of messages.
pub open spec fn message_texts(messages: Seq<String>) -> Seq<Seq<char>> {
    messages.map_values(|s: String| s@)
}

/// Checks the ideas of a stored run against the rules of the data model and
/// reports each violation in a sentence: a generated idea that lists
/// parents, an idea made from others that lists none, an active idea that
/// lacks one of its eight scores, an active idea without an overall score.
/// Nothing is corrected.
pub fn validate_state_idea_invariants(records: &Vec<IdeaRecord>) -> (errors: Vec<String>)
    ensures
        message_texts(errors@) == violations_among(records@, records@.len()),
        errors@.len() == 0 <==> forall|k: int|
            0 <= k < records@.len() ==> is_sound(#[trigger] records@[k]),
{
    let mut errors: Vec<String> = Vec::new();
    let mut k: usize = 0;
    while k < records.len()
        invariant
            k <= records.len(),
            message_texts(errors@) == violations_among(records@, k as nat),
        decreases records.len() - k,
    {
        let record = &records[k];
        let id = text_or_else(&record.id, "?");
        let origin = text_or_else(&record.origin, "?");
        let has_parents = match record.parent_count {
            Some(count) => count > 0,
            None => false,
        };
        let active = match &record.status {
            Some(status) => same_text(status.as_str(), "active"),
            None => false,
        };
        if same_text(origin.as_str(), "generated") {
            if has_parents {
                let ghost held = message_texts(errors@);
                let line = join("Idea ", id.as_str()).concat(" (generated) has parents");
                errors.push(line);
                proof {
                    assert(message_texts(errors@) =~= held.push(line@));
                }
            }
        } else if same_text(origin.as_str(), "refined") || same_text(origin.as_str(), "crossover")
            || same_text(origin.as_str(), "mutated") {
            if !has_parents {
                let ghost held = message_texts(errors@);
                let line = join("Idea ", id.as_str()).concat(" (").concat(origin.as_str()).concat(
                    ") has no parents",
                );
                errors.push(line);
                proof {
                    assert(message_texts(errors@) =~= held.push(line@));
                }
            }
        }
        if active {
            if extract_scores(record).is_none() {
                let ghost held = message_texts(errors@);
                let line = join("Idea ", id.as_str()).concat(" (active) has missing/invalid scores");
                errors.push(line);
                proof {
                    assert(message_texts(errors@) =~= held.push(line@));
                }
            }
            if record.overall_score.is_none() {
                let ghost held = message_texts(errors@);
                let line = join("Idea ", id.as_str()).concat(
                    " (active) has missing/invalid overall_score",
                );
                errors.push(line);
                proof {
                    assert(message_texts(errors@) =~= held.push(line@));
                }
            }
        }
        k += 1;
    }
    proof {
        lemma_no_violation_iff_sound(records@, records@.len());
    }
    errors
}

} // verus!
