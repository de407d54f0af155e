//! What the secret store returns for an identifier, and the shape of a
//! payload as far as the pipeline reads it.

use vstd::prelude::*;

verus! {

/// What the secret store returned for one identifier.
#[derive(Debug, PartialEq, Eq)]
pub enum FetchOutcome {
    /// The fetch failed; the store's message says why.
    Failed(String),
    /// The secret exists but has no string content.
    NoText,
    /// The secret's string content.
    Text(String),
}

/// The value of one top-level field of a JSON object.
#[derive(Debug, PartialEq, Eq)]
pub enum FieldValue {
    /// A JSON string, with its content.
    Text(String),
    /// Any other JSON value: null, a boolean, a number, an array or an object.
    Other,
}

/// One top-level field of a JSON object.
#[derive(Debug, PartialEq, Eq)]
pub struct Field {
    pub key: String,
    pub value: FieldValue,
}

/// A payload after parsing.
#[derive(Debug, PartialEq, Eq)]
pub enum Document {
    /// The payload is not JSON; the parser's message says why.
    Malformed(String),
    /// The payload is JSON, but its top-level value is not an object.
    NotObject,
    /// The payload is a JSON object with these top-level fields.
    Object(Vec<Field>),
}

/// A fetch outcome over sequences of characters.
pub enum FetchOutcomeView {
    Failed(Seq<char>),
    NoText,
    Text(Seq<char>),
}

/// A field over sequences of characters: its key and, where its value is a
/// string, that string.
pub struct FieldView {
    pub key: Seq<char>,
    pub text: Option<Seq<char>>,
}

/// A parsed payload over sequences of characters.
pub enum DocumentView {
    Malformed(Seq<char>),
    NotObject,
    Object(Seq<FieldView>),
}

impl View for FetchOutcome {
    type V = FetchOutcomeView;

    open spec fn view(&self) -> FetchOutcomeView {
        match self {
            FetchOutcome::Failed(reason) => FetchOutcomeView::Failed(reason@),
            FetchOutcome::NoText => FetchOutcomeView::NoText,
            FetchOutcome::Text(text) => FetchOutcomeView::Text(text@),
        }
    }
}

impl View for FieldValue {
    type V = Option<Seq<char>>;

    open spec fn view(&self) -> Option<Seq<char>> {
        match self {
            FieldValue::Text(text) => Some(text@),
            FieldValue::Other => None,
        }
    }
}

impl View for Field {
    type V = FieldView;

    open spec fn view(&self) -> FieldView {
        FieldView { key: self.key@, text: self.value@ }
    }
}

impl View for Document {
    type V = DocumentView;

    open spec fn view(&self) -> DocumentView {
        match self {
            Document::Malformed(reason) => DocumentView::Malformed(reason@),
            Document::NotObject => DocumentView::NotObject,
            Document::Object(fields) => DocumentView::Object(fields@.map_values(|f: Field| f@)),
        }
    }
}

/// What `serde_json::from_str::<serde_json::Value>` makes of a text, reduced
/// to what the pipeline reads: the parser's message where it rejects the
/// text, and otherwise whether the value is an object and, for an object,
/// its fields in the order in which `serde_json::Map` hands them out.
pub uninterp spec fn json_document(text: Seq<char>) -> DocumentView;

/// Parses `text` with `serde_json::from_str::<serde_json::Value>`.
///
/// Assumed, not proved: the outcome depends on the text alone. The body
/// fixes how the parser's result is read: an error becomes `Malformed` with
/// the error's `Display` text; a `Value::Object` becomes `Object` with one
/// field for each entry of its map, in which a `Value::String` keeps its
/// content and every other value becomes `Other`; any other value becomes
/// `NotObject`.
#[verifier::external_body]
pub(crate) fn parse_document(text: &str) -> (document: Document)
    ensures
        document@ == json_document(text@),
{
    match serde_json::from_str::<serde_json::Value>(text) {
        Err(error) => Document::Malformed(error.to_string()),
        Ok(serde_json::Value::Object(object)) => {
            let mut fields = Vec::new();
            for (key, value) in object {
                match value {
                    serde_json::Value::String(text) => fields.push(Field { key, value: FieldValue::Text(text) }),
                    _ => fields.push(Field { key, value: FieldValue::Other }),
                }
            }
            Document::Object(fields)
        },
        Ok(_) => Document::NotObject,
    }
}

/// The fields of the payload, where the fetch returned text that parses to
/// a JSON object.
pub open spec fn object_fields(outcome: FetchOutcomeView) -> Option<Seq<FieldView>> {
    match outcome {
        FetchOutcomeView::Text(text) => match json_document(text) {
            DocumentView::Object(fields) => Some(fields),
            _ => None,
        },
        _ => None,
    }
}

} // verus!
