//! Merging what the store returned, identifier by identifier, into the
//! aggregated set.
//!
//! A failed fetch, a secret without text and a payload that is not JSON are
//! skipped and reported. A payload that is JSON but not an object, and an
//! object with a value that is not a string, end the run. What is merged
//! overwrites earlier values of the same key: the last writer wins.

use vstd::prelude::*;
use vstd::string::StringExecFns;

use crate::pairs::{
    has_key, is_last_with_key, lemma_merged, lemma_overlay_all_keys, lemma_overlay_all_last_wins,
    merged, merged_all, overlay, overlay_all, Pair,
};
use crate::payload::{
    json_document, object_fields, parse_document, Document, DocumentView, FetchOutcome,
    FetchOutcomeView, Field, FieldValue, FieldView,
};
use crate::set::AggregatedSet;

verus! {

/// What became of one identifier without ending the run.
#[derive(Debug, PartialEq, Eq)]
pub enum Step {
    /// The payload was an object of strings and its fields were merged.
    Merged,
    /// The fetch failed; the store's message says why. Nothing was merged.
    FetchFailed(String),
    /// The secret has no string content. Nothing was merged.
    NoText,
    /// The payload is not JSON; the parser's message says why. Nothing was
    /// merged.
    Malformed(String),
}

/// A condition that ends the run.
#[derive(Debug, PartialEq, Eq)]
pub enum FatalError {
    /// The payload is JSON but not an object.
    NotAnObject,
    /// The field with this key holds a value that is not a string.
    NonStringField(String),
}

/// A step over sequences of characters.
pub enum StepView {
    Merged,
    FetchFailed(Seq<char>),
    NoText,
    Malformed(Seq<char>),
}

/// A fatal error over sequences of characters.
pub enum FatalErrorView {
    NotAnObject,
    NonStringField(Seq<char>),
}

impl View for Step {
    type V = StepView;

    open spec fn view(&self) -> StepView {
        match self {
            Step::Merged => StepView::Merged,
            Step::FetchFailed(reason) => StepView::FetchFailed(reason@),
            Step::NoText => StepView::NoText,
            Step::Malformed(reason) => StepView::Malformed(reason@),
        }
    }
}

impl View for FatalError {
    type V = FatalErrorView;

    open spec fn view(&self) -> FatalErrorView {
        match self {
            FatalError::NotAnObject => FatalErrorView::NotAnObject,
            FatalError::NonStringField(key) => FatalErrorView::NonStringField(key@),
        }
    }
}

/// A step or a fatal error, over sequences of characters.
pub open spec fn verdict_view(result: Result<Step, FatalError>) -> Result<
    StepView,
    FatalErrorView,
> {
    match result {
        Ok(step) => Ok(step@),
        Err(error) => Err(error@),
    }
}

/// Whether every field holds a string.
pub open spec fn all_text(fields: Seq<FieldView>) -> bool {
    forall|i: int| 0 <= i < fields.len() ==> (#[trigger] fields[i]).text is Some
}

/// Whether the field at `i` is the first one that holds no string.
pub open spec fn is_first_non_text(fields: Seq<FieldView>, i: int) -> bool {
    &&& 0 <= i < fields.len()
    &&& fields[i].text is None
    &&& forall|j: int| 0 <= j < i ==> (#[trigger] fields[j]).text is Some
}

/// The position of the first field that holds no string, where there is one.
pub open spec fn first_non_text(fields: Seq<FieldView>) -> int {
    choose|i: int| is_first_non_text(fields, i)
}

/// The fields as key/value pairs, where every field holds a string.
pub open spec fn text_pairs(fields: Seq<FieldView>) -> Seq<Pair> {
    fields.map_values(|f: FieldView| (f.key, f.text->0))
}

/// How a parsed payload is judged: text that is not JSON is skipped, a JSON
/// value that is not an object is fatal, an object is merged if all its
/// values are strings, and else its first field that holds no string is
/// fatal.
pub open spec fn verdict(document: DocumentView) -> Result<StepView, FatalErrorView> {
    match document {
        DocumentView::Malformed(reason) => Ok(StepView::Malformed(reason)),
        DocumentView::NotObject => Err(FatalErrorView::NotAnObject),
        DocumentView::Object(fields) => if all_text(fields) {
            Ok(StepView::Merged)
        } else {
            Err(FatalErrorView::NonStringField(fields[first_non_text(fields)].key))
        },
    }
}

/// The pairs that a parsed payload adds to the set: the fields of an object
/// whose values are all strings, and nothing for any other payload.
pub open spec fn contribution(document: DocumentView) -> Seq<Pair> {
    match document {
        DocumentView::Object(fields) if all_text(fields) => text_pairs(fields),
        _ => Seq::empty(),
    }
}

/// How a fetch outcome is judged: a failed fetch and a secret without text
/// are skipped, and text is judged by what it parses to.
pub open spec fn outcome_verdict(outcome: FetchOutcomeView) -> Result<StepView, FatalErrorView> {
    match outcome {
        FetchOutcomeView::Failed(reason) => Ok(StepView::FetchFailed(reason)),
        FetchOutcomeView::NoText => Ok(StepView::NoText),
        FetchOutcomeView::Text(text) => verdict(json_document(text)),
    }
}

/// The pairs that a fetch outcome adds to the set.
pub open spec fn outcome_contribution(outcome: FetchOutcomeView) -> Seq<Pair> {
    match outcome {
        FetchOutcomeView::Text(text) => contribution(json_document(text)),
        _ => Seq::empty(),
    }
}

/// The pairs that each of the outcomes adds, in the outcomes' order.
pub open spec fn contributions(outcomes: Seq<FetchOutcomeView>) -> Seq<Seq<Pair>> {
    outcomes.map_values(|o: FetchOutcomeView| outcome_contribution(o))
}

/// The outcomes over sequences of characters.
pub open spec fn outcome_views(outcomes: Seq<FetchOutcome>) -> Seq<FetchOutcomeView> {
    outcomes.map_values(|o: FetchOutcome| o@)
}

/// Whether no outcome ends the run.
pub open spec fn run_succeeds(outcomes: Seq<FetchOutcomeView>) -> bool {
    forall|i: int| 0 <= i < outcomes.len() ==> outcome_verdict(#[trigger] outcomes[i]) is Ok
}

/// The mapping that a run without fatal payload ends with.
pub open spec fn aggregated(outcomes: Seq<FetchOutcomeView>) -> Map<Seq<char>, Seq<char>> {
    overlay_all(Map::empty(), contributions(outcomes))
}

/// The line that reports a step for the secret `identifier`, where the step
/// is reported: a failed fetch and a payload that is not JSON are, a merge
/// and a secret without text are not.
pub open spec fn diagnostic_text(step: StepView, identifier: Seq<char>) -> Option<Seq<char>> {
    match step {
        StepView::FetchFailed(reason) => Some(
            "[Secret] Failed to retrieve secret "@ + identifier + ": "@ + reason,
        ),
        StepView::Malformed(reason) => Some(
            "[Secret] Failed to parse secret "@ + identifier + ": "@ + reason,
        ),
        _ => None,
    }
}

/// The message that reports a fatal error for the secret `identifier`.
pub open spec fn fatal_text(error: FatalErrorView, identifier: Seq<char>) -> Seq<char> {
    match error {
        FatalErrorView::NotAnObject => "[Secret] Secret "@ + identifier + " is not a JSON object"@,
        FatalErrorView::NonStringField(key) => "[Secret] Secret "@ + identifier
            + " holds a value that is not a string in field "@ + key,
    }
}

impl Step {
    /// The line to log for this step, if it is one that is reported.
    pub fn diagnostic(&self, identifier: &str) -> (line: Option<String>)
        ensures
            match line {
                Some(text) => diagnostic_text(self@, identifier@) == Some(text@),
                None => diagnostic_text(self@, identifier@) is None,
            },
    {
        match self {
            Step::FetchFailed(reason) => {
                let mut text = String::from_str("[Secret] Failed to retrieve secret ");
                text.append(identifier);
                text.append(": ");
                text.append(reason.as_str());
                Some(text)
            },
            Step::Malformed(reason) => {
                let mut text = String::from_str("[Secret] Failed to parse secret ");
                text.append(identifier);
                text.append(": ");
                text.append(reason.as_str());
                Some(text)
            },
            _ => None,
        }
    }
}

impl FatalError {
    /// The message with which the run ends.
    pub fn message(&self, identifier: &str) -> (text: String)
        ensures
            text@ == fatal_text(self@, identifier@),
    {
        let mut text = String::from_str("[Secret] Secret ");
        text.append(identifier);
        match self {
            FatalError::NotAnObject => {
                text.append(" is not a JSON object");
            },
            FatalError::NonStringField(key) => {
                text.append(" holds a value that is not a string in field ");
                text.append(key.as_str());
            },
        }
        text
    }
}

/// The position of the first field whose value is not a string.
fn find_non_text(fields: &Vec<Field>) -> (found: Option<usize>)
    ensures
        match found {
            Some(i) => {
                &&& i < fields.len()
                &&& !all_text(fields@.map_values(|f: Field| f@))
                &&& first_non_text(fields@.map_values(|f: Field| f@)) == i
            },
            None => all_text(fields@.map_values(|f: Field| f@)),
        },
{
    let ghost views = fields@.map_values(|f: Field| f@);
    let mut i: usize = 0;
    while i < fields.len()
        invariant
            i <= fields.len(),
            views == fields@.map_values(|f: Field| f@),
            forall|j: int| 0 <= j < i ==> (#[trigger] views[j]).text is Some,
        decreases fields.len() - i,
    {
        match &fields[i].value {
            FieldValue::Other => {
                proof {
                    assert(views[i as int].text is None);
                    assert(is_first_non_text(views, i as int));
                    let k = first_non_text(views);
                    if k < i {
                        assert(views[k].text is Some);
                    }
                    if i < k {
                        assert(views[i as int].text is Some);
                    }
                }
                return Some(i);
            },
            FieldValue::Text(_) => {},
        }
        i += 1;
    }
    None
}

impl AggregatedSet {
    /// Merges a parsed payload into the set, or says why it was not merged.
    /// The set changes only if the payload is an object whose values are all
    /// strings: then each field is stored under its key, in the payload's
    /// order, and replaces what the key had before.
    pub fn merge_document(&mut self, document: &Document) -> (result: Result<Step, FatalError>)
        ensures
            verdict_view(result) == verdict(document@),
            final(self).pairs() == merged(old(self).pairs(), contribution(document@)),
            final(self)@ == overlay(old(self)@, contribution(document@)),
    {
        match document {
            Document::Malformed(reason) => Ok(Step::Malformed(reason.clone())),
            Document::NotObject => Err(FatalError::NotAnObject),
            Document::Object(fields) => {
                let ghost views = fields@.map_values(|f: Field| f@);
                match find_non_text(fields) {
                    Some(at) => Err(FatalError::NonStringField(fields[at].key.clone())),
                    None => {
                        proof {
                            use_type_invariant(&*self);
                        }
                        let mut i: usize = 0;
                        while i < fields.len()
                            invariant
                                i <= fields.len(),
                                views == fields@.map_values(|f: Field| f@),
                                all_text(views),
                                self.pairs() == merged(
                                    old(self).pairs(),
                                    text_pairs(views).take(i as int),
                                ),
                            decreases fields.len() - i,
                        {
                            match &fields[i].value {
                                FieldValue::Text(text) => {
                                    proof {
                                        let upto = text_pairs(views).take(i + 1);
                                        assert(upto.drop_last() =~= text_pairs(views).take(i as int));
                                        assert(upto.last() == (fields[i as int].key@, text@));
                                    }
                                    self.insert(fields[i].key.clone(), text.clone());
                                },
                                FieldValue::Other => {
                                    assert(views[i as int].text is None);
                                },
                            }
                            i += 1;
                        }
                        proof {
                            assert(text_pairs(views).take(i as int) =~= text_pairs(views));
                            lemma_merged(old(self).pairs(), text_pairs(views));
                        }
                        Ok(Step::Merged)
                    },
                }
            },
        }
    }

    /// Takes in what the store returned for one identifier: text is parsed as
    /// JSON and merged as `merge_document` says; a failed fetch and a secret
    /// without text leave the set as it is.
    pub fn absorb(&mut self, outcome: &FetchOutcome) -> (result: Result<Step, FatalError>)
        ensures
            verdict_view(result) == outcome_verdict(outcome@),
            final(self).pairs() == merged(old(self).pairs(), outcome_contribution(outcome@)),
            final(self)@ == overlay(old(self)@, outcome_contribution(outcome@)),
    {
        match outcome {
            FetchOutcome::Failed(reason) => Ok(Step::FetchFailed(reason.clone())),
            FetchOutcome::NoText => Ok(Step::NoText),
            FetchOutcome::Text(text) => {
                let document = parse_document(text.as_str());
                self.merge_document(&document)
            },
        }
    }
}

/// The outcome of a run that no payload ended.
#[derive(Debug)]
pub struct Aggregation {
    /// The merged set.
    pub set: AggregatedSet,
    /// What became of each identifier, in the identifiers' order.
    pub steps: Vec<Step>,
}

/// The payload that ended a run.
#[derive(Debug, PartialEq, Eq)]
pub struct Failure {
    /// The position of the identifier whose payload ended the run.
    pub position: usize,
    /// Why that payload ended the run.
    pub error: FatalError,
}

/// Merges what the store returned for each identifier, in the identifiers'
/// order, into one set. The first payload that is JSON but no object of
/// strings ends the run; where there is none, the run succeeds.
pub fn aggregate(outcomes: &Vec<FetchOutcome>) -> (result: Result<Aggregation, Failure>)
    ensures
        match result {
            Ok(aggregation) => {
                &&& run_succeeds(outcome_views(outcomes@))
                &&& aggregation.steps.len() == outcomes.len()
                &&& forall|i: int|
                    0 <= i < outcomes.len() ==> outcome_verdict(outcomes[i]@) == verdict_view(
                        Ok(#[trigger] aggregation.steps[i]),
                    )
                &&& aggregation.set.pairs() == merged_all(
                    Seq::empty(),
                    contributions(outcome_views(outcomes@)),
                )
                &&& aggregation.set@ == aggregated(outcome_views(outcomes@))
            },
            Err(failure) => {
                &&& failure.position < outcomes.len()
                &&& forall|i: int|
                    0 <= i < failure.position ==> outcome_verdict(#[trigger] outcomes[i]@) is Ok
                &&& outcome_verdict(outcomes[failure.position as int]@) == verdict_view(
                    Err(failure.error),
                )
            },
        },
{
    let ghost all = contributions(outcome_views(outcomes@));
    let mut set = AggregatedSet::new();
    let mut steps: Vec<Step> = Vec::new();
    let mut i: usize = 0;
    while i < outcomes.len()
        invariant
            i <= outcomes.len(),
            all == contributions(outcome_views(outcomes@)),
            steps.len() == i,
            forall|j: int|
                0 <= j < i ==> outcome_verdict(outcomes[j]@) == verdict_view(Ok(#[trigger] steps[j])),
            set.pairs() == merged_all(Seq::empty(), all.take(i as int)),
            set@ == overlay_all(Map::empty(), all.take(i as int)),
        decreases outcomes.len() - i,
    {
        proof {
            assert(all.take(i + 1).drop_last() =~= all.take(i as int));
            assert(all.take(i + 1).last() == outcome_contribution(outcomes[i as int]@));
        }
        match set.absorb(&outcomes[i]) {
            Ok(step) => {
                steps.push(step);
            },
            Err(error) => {
                proof {
                    assert forall|j: int| 0 <= j < i implies outcome_verdict(
                        #[trigger] outcomes[j]@,
                    ) is Ok by {
                        assert(outcome_verdict(outcomes[j]@) == verdict_view(Ok(steps[j])));
                    }
                }
                return Err(Failure { position: i, error });
            },
        }
        i += 1;
    }
    proof {
        assert(all.take(i as int) =~= all);
        assert forall|j: int| 0 <= j < outcomes.len() implies outcome_verdict(
            #[trigger] outcome_views(outcomes@)[j],
        ) is Ok by {
            assert(outcome_verdict(outcomes[j]@) == verdict_view(Ok(steps[j])));
        }
    }
    Ok(Aggregation { set, steps })
}

/// Whether the payload at position `i` is an object whose field `f` has `key`.
pub open spec fn holds_key_at(
    outcomes: Seq<FetchOutcomeView>,
    i: int,
    f: int,
    key: Seq<char>,
) -> bool {
    &&& 0 <= i < outcomes.len()
    &&& object_fields(outcomes[i]) matches Some(fields)
    &&& 0 <= f < fields.len()
    &&& fields[f].key == key
}

/// The keys of all payloads that parse to an object.
pub open spec fn payload_keys(outcomes: Seq<FetchOutcomeView>) -> Set<Seq<char>> {
    Set::new(|key: Seq<char>| exists|i: int, f: int| holds_key_at(outcomes, i, f, key))
}

/// In a run that no payload ends, a payload that parses to an object
/// contributes its fields, and any other outcome contributes nothing.
pub proof fn lemma_contribution_of_object(outcomes: Seq<FetchOutcomeView>, i: int)
    requires
        run_succeeds(outcomes),
        0 <= i < outcomes.len(),
    ensures
        match object_fields(outcomes[i]) {
            Some(fields) => all_text(fields) && contributions(outcomes)[i] == text_pairs(fields),
            None => contributions(outcomes)[i].len() == 0,
        },
{
    assert(outcome_verdict(outcomes[i]) is Ok);
}

/// Key union: in a run that no payload ends, the keys of the aggregated set
/// are exactly the keys of the payloads that parse to an object.
pub proof fn lemma_keys_are_union(outcomes: Seq<FetchOutcomeView>)
    requires
        run_succeeds(outcomes),
    ensures
        aggregated(outcomes).dom() == payload_keys(outcomes),
{
    let incoming = contributions(outcomes);
    let total = aggregated(outcomes);
    assert forall|key: Seq<char>| total.dom().contains(key) <==> payload_keys(outcomes).contains(key) by {
        lemma_overlay_all_keys(Map::empty(), incoming, key);
        if total.dom().contains(key) {
            let i = choose|i: int| 0 <= i < incoming.len() && has_key(#[trigger] incoming[i], key);
            lemma_contribution_of_object(outcomes, i);
            let f = choose|f: int| 0 <= f < incoming[i].len() && (#[trigger] incoming[i][f]).0 == key;
            assert(holds_key_at(outcomes, i, f, key));
        }
        if payload_keys(outcomes).contains(key) {
            let (i, f) = choose|i: int, f: int| holds_key_at(outcomes, i, f, key);
            lemma_contribution_of_object(outcomes, i);
            assert(incoming[i][f].0 == key);
            assert(has_key(incoming[i], key));
        }
    }
    assert(total.dom() =~= payload_keys(outcomes));
}

/// Collision law: in a run that no payload ends, a key has the value that
/// the last payload holding it gives it. So where the payloads at positions
/// `i < j` both hold the key and no later one does, the value is that of
/// position `j`. Here `f` is the last field of payload `j` with that key.
pub proof fn lemma_last_writer_wins(outcomes: Seq<FetchOutcomeView>, j: int, f: int, key: Seq<char>)
    requires
        run_succeeds(outcomes),
        holds_key_at(outcomes, j, f, key),
        forall|g: int| f < g ==> !holds_key_at(outcomes, j, g, key),
        forall|l: int, g: int| j < l ==> !holds_key_at(outcomes, l, g, key),
    ensures
        aggregated(outcomes).contains_key(key),
        aggregated(outcomes)[key] == object_fields(outcomes[j])->0[f].text->0,
{
    let incoming = contributions(outcomes);
    lemma_contribution_of_object(outcomes, j);
    let fields = object_fields(outcomes[j])->0;
    assert(incoming[j][f] == (key, fields[f].text->0));
    assert forall|g: int| f < g < incoming[j].len() implies (#[trigger] incoming[j][g]).0 != key by {
        assert(!holds_key_at(outcomes, j, g, key));
    }
    assert(is_last_with_key(incoming[j], f, key));
    assert forall|l: int| j < l < incoming.len() implies !has_key(#[trigger] incoming[l], key) by {
        lemma_contribution_of_object(outcomes, l);
        if has_key(incoming[l], key) {
            let g = choose|g: int| 0 <= g < incoming[l].len() && (#[trigger] incoming[l][g]).0 == key;
            assert(holds_key_at(outcomes, l, g, key));
        }
    }
    lemma_overlay_all_last_wins(Map::empty(), incoming, j, f, key);
}

} // verus!
