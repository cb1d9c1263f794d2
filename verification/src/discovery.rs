//! From the answers of the discovery questionnaire to the constraints of a
//! run.

use vstd::prelude::*;
use vstd::string::StringExecFns;
use crate::text::compare_text;
use crate::text::lemma_bytes_before_transitive;
use crate::text::lowercased;
use crate::text::text_before;
use crate::text::TextOrder;
use crate::text::to_lowercase;
use crate::text::trim;
use crate::text::trimmed;

verus! {

/// The hours a week that can be spent on the project.
#[derive(Debug, Clone, Copy, PartialEq, Eq, Structural)]
pub enum TimeAvailable {
    H4to8,
    H10to16,
    H20Plus,
}

/// The way the project is to earn money.
#[derive(Debug, Clone, Copy, PartialEq, Eq, Structural)]
pub enum BusinessModel {
    Saas,
    Api,
    OneTime,
    Marketplace,
}

/// Whom the project is for.
#[derive(Debug, Clone, Copy, PartialEq, Eq, Structural)]
pub enum TargetAudience {
    Developers,
    Business,
    Creators,
    Freelancers,
}

/// How far the project may lean on language models.
#[derive(Debug, Clone, Copy, PartialEq, Eq, Structural)]
pub enum TechApproach {
    LlmBased,
    LlmAssisted,
    NoLlm,
}

/// The answers of the questionnaire.
#[derive(Debug, Clone, PartialEq, Eq)]
pub struct DiscoveryAnswers {
    pub skills: Vec<String>,
    pub time_available: TimeAvailable,
    pub business_model: BusinessModel,
    pub target_audience: TargetAudience,
    pub tech_approach: TechApproach,
}

/// The constraints that follow from the answers.
#[derive(Debug, Clone, PartialEq, Eq)]
pub struct DerivedConstraints {
    pub timeline_weeks: u32,
    pub required_skills: Vec<String>,
    pub must_include: Vec<String>,
    pub forbidden: Vec<String>,
}

/// The texts of a list of strings.
pub open spec fn texts(strings: Seq<String>) -> Seq<Seq<char>> {
    strings.map_values(|s: String| s@)
}

/// Every text comes before all the texts behind it, in the order of strings:
/// the list is sorted and holds no text twice.
pub open spec fn strictly_sorted(list: Seq<Seq<char>>) -> bool {
    forall|i: int, j: int| 0 <= i < j < list.len() ==> text_before(#[trigger] list[i], #[trigger] list[j])
}

/// `output` is `input` without its empty texts, sorted and without
/// repetition.
pub open spec fn is_sorted_distinct_of(input: Seq<Seq<char>>, output: Seq<Seq<char>>) -> bool {
    &&& strictly_sorted(output)
    &&& forall|t: Seq<char>| #[trigger] output.contains(t) <==> (t.len() > 0 && input.contains(t))
}

/// The normal form of a token: trimmed, then in lower case.
pub open spec fn normal_form(token: Seq<char>) -> Seq<char> {
    lowercased(trimmed(token))
}

/// The normal forms of a list of tokens.
pub open spec fn normal_forms(tokens: Seq<String>) -> Seq<Seq<char>> {
    tokens.map_values(|s: String| normal_form(s@))
}

/// How many weeks the available time allows for.
pub open spec fn weeks_for(time: TimeAvailable) -> u32 {
    match time {
        TimeAvailable::H4to8 => 1,
        TimeAvailable::H10to16 => 2,
        TimeAvailable::H20Plus => 4,
    }
}

/// The keyword of a business model.
pub open spec fn model_keyword(model: BusinessModel) -> Seq<char> {
    match model {
        BusinessModel::Saas => "saas"@,
        BusinessModel::Api => "api"@,
        BusinessModel::OneTime => "one-time"@,
        BusinessModel::Marketplace => "marketplace"@,
    }
}

/// The keyword of a target audience.
pub open spec fn audience_keyword(audience: TargetAudience) -> Seq<char> {
    match audience {
        TargetAudience::Developers => "developers"@,
        TargetAudience::Business => "business"@,
        TargetAudience::Creators => "creators"@,
        TargetAudience::Freelancers => "freelancers"@,
    }
}

/// The raw tokens that a run must not use, by technical approach.
pub open spec fn forbidden_tokens(approach: TechApproach) -> Seq<Seq<char>> {
    match approach {
        TechApproach::NoLlm => seq![normal_form("llm"@), normal_form("ai"@)],
        _ => Seq::empty(),
    }
}

/// Puts `token` into the sorted list at its place, unless the list holds the
/// same text already.
fn insert_distinct(sorted: &mut Vec<String>, token: String)
    requires
        strictly_sorted(texts(old(sorted)@)),
    ensures
        strictly_sorted(texts(final(sorted)@)),
        forall|t: Seq<char>|
            #[trigger] texts(final(sorted)@).contains(t) <==> (texts(old(sorted)@).contains(t) || t
                == token@),
{
    let ghost before = texts(sorted@);
    let mut p: usize = 0;
    let mut same = false;
    while p < sorted.len()
        invariant_except_break
            !same,
        invariant
            p <= sorted.len(),
            texts(sorted@) == before,
            forall|j: int| 0 <= j < p ==> text_before(#[trigger] before[j], token@),
        ensures
            same ==> p < sorted.len() && before[p as int] == token@,
            !same ==> (p == sorted.len() || text_before(token@, before[p as int])),
        decreases sorted.len() - p,
    {
        let order = compare_text(sorted[p].as_str(), token.as_str());
        assert(sorted@[p as int]@ == before[p as int]);
        match order {
            TextOrder::Before => {
                p += 1;
            },
            TextOrder::Same => {
                same = true;
                break;
            },
            TextOrder::After => {
                break;
            },
        }
    }
    if same {
        proof {
            assert(texts(sorted@).contains(token@));
        }
    } else {
        let ghost text = token@;
        sorted.insert(p, token);
        proof {
            let after = texts(sorted@);
            assert(after =~= before.insert(p as int, text));
            assert forall|i: int, j: int| 0 <= i < j < after.len() implies text_before(
                #[trigger] after[i],
                #[trigger] after[j],
            ) by {
                if j < p {
                    assert(after[i] == before[i] && after[j] == before[j]);
                } else if j == p {
                    assert(after[i] == before[i]);
                } else if i < p {
                    assert(after[i] == before[i] && after[j] == before[j - 1]);
                } else if i == p {
                    assert(after[j] == before[j - 1]);
                    if j - 1 > p {
                        assert(text_before(before[p as int], before[j - 1]));
                        lemma_bytes_before_transitive(
                            vstd::utf8::encode_utf8(text),
                            vstd::utf8::encode_utf8(before[p as int]),
                            vstd::utf8::encode_utf8(before[j - 1]),
                        );
                    }
                } else {
                    assert(after[i] == before[i - 1] && after[j] == before[j - 1]);
                }
            }
            assert forall|t: Seq<char>| #[trigger] after.contains(t) <==> (before.contains(t) || t
                == text) by {
                if after.contains(t) {
                    let i = choose|i: int| 0 <= i < after.len() && after[i] == t;
                    if i < p {
                        assert(before[i] == t);
                    } else if i > p {
                        assert(before[i - 1] == t);
                    }
                }
                if before.contains(t) {
                    let i = choose|i: int| 0 <= i < before.len() && before[i] == t;
                    if i < p {
                        assert(after[i] == t);
                    } else {
                        assert(after[i + 1] == t);
                    }
                }
                if t == text {
                    assert(after[p as int] == t);
                }
            }
        }
    }
}

/// The tokens without the empty ones, sorted in the order of strings and
/// without repetition.
pub fn sorted_distinct(tokens: Vec<String>) -> (sorted: Vec<String>)
    ensures
        is_sorted_distinct_of(texts(tokens@), texts(sorted@)),
{
    let mut sorted: Vec<String> = Vec::new();
    let mut i: usize = 0;
    while i < tokens.len()
        invariant
            i <= tokens.len(),
            is_sorted_distinct_of(texts(tokens@).take(i as int), texts(sorted@)),
        decreases tokens.len() - i,
    {
        let ghost prefix = texts(tokens@).take(i as int);
        let ghost next = texts(tokens@).take(i + 1);
        let ghost held = texts(sorted@);
        let token = tokens[i].clone();
        proof {
            assert(next == prefix.push(token@));
            assert forall|t: Seq<char>| #[trigger] next.contains(t) <==> (prefix.contains(t) || t
                == token@) by {
                if next.contains(t) {
                    let k = choose|k: int| 0 <= k < next.len() && next[k] == t;
                    if k < prefix.len() {
                        assert(prefix[k] == t);
                    }
                }
                if prefix.contains(t) {
                    let k = choose|k: int| 0 <= k < prefix.len() && prefix[k] == t;
                    assert(next[k] == t);
                }
                if t == token@ {
                    assert(next[i as int] == t);
                }
            }
        }
        if !token.as_str().is_empty() {
            insert_distinct(&mut sorted, token);
        }
        proof {
            let now = texts(sorted@);
            assert forall|t: Seq<char>| #[trigger] now.contains(t) <==> (t.len() > 0
                && next.contains(t)) by {
                assert(held.contains(t) <==> (t.len() > 0 && prefix.contains(t)));
            }
        }
        i += 1;
    }
    proof {
        assert(texts(tokens@).take(i as int) == texts(tokens@));
    }
    sorted
}

/// Normalizes a list of tokens: each is trimmed and put in lower case; the
/// empty ones are dropped, and the rest comes back sorted and without
/// repetition.
pub fn normalize_tokens(tokens: &Vec<String>) -> (normalized: Vec<String>)
    ensures
        is_sorted_distinct_of(normal_forms(tokens@), texts(normalized@)),
{
    let mut forms: Vec<String> = Vec::new();
    let mut i: usize = 0;
    while i < tokens.len()
        invariant
            i <= tokens.len(),
            texts(forms@) == normal_forms(tokens@).take(i as int),
        decreases tokens.len() - i,
    {
        let form = to_lowercase(trim(tokens[i].as_str()));
        let ghost held = texts(forms@);
        forms.push(form);
        proof {
            assert(texts(forms@) =~= held.push(form@));
            assert(normal_forms(tokens@).take(i + 1) =~= normal_forms(tokens@).take(i as int).push(
                normal_form(tokens@[i as int]@),
            ));
        }
        i += 1;
    }
    proof {
        assert(normal_forms(tokens@).take(i as int) == normal_forms(tokens@));
    }
    sorted_distinct(forms)
}

/// The keyword of a business model.
fn model_token(model: BusinessModel) -> (token: String)
    ensures
        token@ == model_keyword(model),
{
    match model {
        BusinessModel::Saas => String::from_str("saas"),
        BusinessModel::Api => String::from_str("api"),
        BusinessModel::OneTime => String::from_str("one-time"),
        BusinessModel::Marketplace => String::from_str("marketplace"),
    }
}

/// The keyword of a target audience.
fn audience_token(audience: TargetAudience) -> (token: String)
    ensures
        token@ == audience_keyword(audience),
{
    match audience {
        TargetAudience::Developers => String::from_str("developers"),
        TargetAudience::Business => String::from_str("business"),
        TargetAudience::Creators => String::from_str("creators"),
        TargetAudience::Freelancers => String::from_str("freelancers"),
    }
}

/// Derives the constraints of a run from the answers: the timeline from the
/// time available, the required skills from the skills named, what an idea
/// must include from the business model and the audience, and what it must
/// not use from the technical approach. Each list is normalized.
pub fn derive_constraints(answers: &DiscoveryAnswers) -> (derived: DerivedConstraints)
    ensures
        derived.timeline_weeks == weeks_for(answers.time_available),
        is_sorted_distinct_of(normal_forms(answers.skills@), texts(derived.required_skills@)),
        is_sorted_distinct_of(
            seq![
                normal_form(model_keyword(answers.business_model)),
                normal_form(audience_keyword(answers.target_audience)),
            ],
            texts(derived.must_include@),
        ),
        is_sorted_distinct_of(forbidden_tokens(answers.tech_approach), texts(derived.forbidden@)),
        answers.tech_approach != TechApproach::NoLlm ==> derived.forbidden@.len() == 0,
{
    let timeline_weeks: u32 = match answers.time_available {
        TimeAvailable::H4to8 => 1,
        TimeAvailable::H10to16 => 2,
        TimeAvailable::H20Plus => 4,
    };
    let required_skills = normalize_tokens(&answers.skills);
    let mut keywords: Vec<String> = Vec::new();
    keywords.push(model_token(answers.business_model));
    keywords.push(audience_token(answers.target_audience));
    let must_include = normalize_tokens(&keywords);
    proof {
        assert(normal_forms(keywords@) =~= seq![
            normal_form(model_keyword(answers.business_model)),
            normal_form(audience_keyword(answers.target_audience)),
        ]);
    }
    let forbidden = match answers.tech_approach {
        TechApproach::NoLlm => {
            let mut banned: Vec<String> = Vec::new();
            banned.push(String::from_str("llm"));
            banned.push(String::from_str("ai"));
            proof {
                assert(normal_forms(banned@) =~= forbidden_tokens(TechApproach::NoLlm));
            }
            normalize_tokens(&banned)
        },
        _ => {
            let empty: Vec<String> = Vec::new();
            proof {
                assert(!Seq::<Seq<char>>::empty().contains(arbitrary::<Seq<char>>()));
                assert(is_sorted_distinct_of(Seq::<Seq<char>>::empty(), texts(empty@)));
            }
            empty
        },
    };
    DerivedConstraints { timeline_weeks, required_skills, must_include, forbidden }
}

} // verus!
