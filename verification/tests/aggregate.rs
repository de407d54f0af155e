use secret_env::aggregate::{aggregate, FatalError, Failure, Step};
use secret_env::payload::{Document, FetchOutcome, Field, FieldValue};
use secret_env::set::{AggregatedSet, Entry};

fn text(payload: &str) -> FetchOutcome {
    FetchOutcome::Text(payload.to_string())
}

fn field(key: &str, value: &str) -> Field {
    Field { key: key.to_string(), value: FieldValue::Text(value.to_string()) }
}

fn entry(key: &str, value: &str) -> Entry {
    Entry { key: key.to_string(), value: value.to_string() }
}

fn value_of(set: &AggregatedSet, key: &str) -> Option<String> {
    set.get(key).cloned()
}

#[test]
fn new_set_is_empty() {
    let set = AggregatedSet::new();
    assert_eq!(set.len(), 0);
    assert!(set.entries().is_empty());
    assert_eq!(set.get("x"), None);
}

#[test]
fn insert_stores_under_key() {
    let mut set = AggregatedSet::new();
    set.insert("x".to_string(), "1".to_string());
    assert_eq!(set.len(), 1);
    assert_eq!(value_of(&set, "x"), Some("1".to_string()));
    assert_eq!(value_of(&set, "y"), None);
}

#[test]
fn insert_overwrites_and_keeps_place() {
    let mut set = AggregatedSet::new();
    set.insert("x".to_string(), "1".to_string());
    set.insert("y".to_string(), "2".to_string());
    set.insert("x".to_string(), "3".to_string());
    assert_eq!(set.len(), 2);
    assert_eq!(set.entries(), &vec![entry("x", "3"), entry("y", "2")]);
}

#[test]
fn keys_differ_by_case_and_dash() {
    let mut set = AggregatedSet::new();
    set.insert("a-b".to_string(), "1".to_string());
    set.insert("a_b".to_string(), "2".to_string());
    set.insert("A-B".to_string(), "3".to_string());
    assert_eq!(set.len(), 3);
    assert_eq!(value_of(&set, "a-b"), Some("1".to_string()));
    assert_eq!(value_of(&set, "a_b"), Some("2".to_string()));
    assert_eq!(value_of(&set, "A-B"), Some("3".to_string()));
}

#[test]
fn merge_document_merges_object_of_strings() {
    let mut set = AggregatedSet::new();
    set.insert("y".to_string(), "0".to_string());
    let document = Document::Object(vec![field("x", "1"), field("y", "2")]);
    assert_eq!(set.merge_document(&document), Ok(Step::Merged));
    assert_eq!(set.entries(), &vec![entry("y", "2"), entry("x", "1")]);
}

#[test]
fn merge_document_later_field_wins_within_payload() {
    let mut set = AggregatedSet::new();
    let document = Document::Object(vec![field("k", "first"), field("k", "second")]);
    assert_eq!(set.merge_document(&document), Ok(Step::Merged));
    assert_eq!(set.entries(), &vec![entry("k", "second")]);
}

#[test]
fn merge_document_empty_object_changes_nothing() {
    let mut set = AggregatedSet::new();
    set.insert("x".to_string(), "1".to_string());
    assert_eq!(set.merge_document(&Document::Object(vec![])), Ok(Step::Merged));
    assert_eq!(set.entries(), &vec![entry("x", "1")]);
}

#[test]
fn merge_document_skips_malformed() {
    let mut set = AggregatedSet::new();
    set.insert("x".to_string(), "1".to_string());
    let document = Document::Malformed("expected value".to_string());
    assert_eq!(set.merge_document(&document), Ok(Step::Malformed("expected value".to_string())));
    assert_eq!(set.entries(), &vec![entry("x", "1")]);
}

#[test]
fn merge_document_refuses_non_object() {
    let mut set = AggregatedSet::new();
    set.insert("x".to_string(), "1".to_string());
    assert_eq!(set.merge_document(&Document::NotObject), Err(FatalError::NotAnObject));
    assert_eq!(set.entries(), &vec![entry("x", "1")]);
}

#[test]
fn merge_document_refuses_first_non_string_and_merges_nothing() {
    let mut set = AggregatedSet::new();
    set.insert("x".to_string(), "1".to_string());
    let document = Document::Object(vec![
        field("a", "1"),
        Field { key: "b".to_string(), value: FieldValue::Other },
        field("x", "9"),
        Field { key: "c".to_string(), value: FieldValue::Other },
    ]);
    assert_eq!(set.merge_document(&document), Err(FatalError::NonStringField("b".to_string())));
    assert_eq!(set.entries(), &vec![entry("x", "1")]);
}

#[test]
fn absorb_parses_json_object() {
    let mut set = AggregatedSet::new();
    assert_eq!(set.absorb(&text(r#"{"db-host":"localhost","port":"5432"}"#)), Ok(Step::Merged));
    assert_eq!(set.len(), 2);
    assert_eq!(value_of(&set, "db-host"), Some("localhost".to_string()));
    assert_eq!(value_of(&set, "port"), Some("5432".to_string()));
}

#[test]
fn absorb_keeps_string_content_unescaped() {
    let mut set = AggregatedSet::new();
    assert_eq!(set.absorb(&text(r#"{"k":"a\"b\\c\nd 'e'"}"#)), Ok(Step::Merged));
    assert_eq!(value_of(&set, "k"), Some("a\"b\\c\nd 'e'".to_string()));
}

#[test]
fn absorb_skips_failed_fetch() {
    let mut set = AggregatedSet::new();
    set.insert("x".to_string(), "1".to_string());
    let outcome = FetchOutcome::Failed("service error".to_string());
    assert_eq!(set.absorb(&outcome), Ok(Step::FetchFailed("service error".to_string())));
    assert_eq!(set.entries(), &vec![entry("x", "1")]);
}

#[test]
fn absorb_skips_secret_without_text() {
    let mut set = AggregatedSet::new();
    set.insert("x".to_string(), "1".to_string());
    assert_eq!(set.absorb(&FetchOutcome::NoText), Ok(Step::NoText));
    assert_eq!(set.entries(), &vec![entry("x", "1")]);
}

#[test]
fn absorb_skips_malformed_json_with_parser_message() {
    let mut set = AggregatedSet::new();
    set.insert("x".to_string(), "1".to_string());
    let step = set.absorb(&text("not json")).unwrap();
    assert_eq!(step, Step::Malformed("expected ident at line 1 column 2".to_string()));
    assert_eq!(set.entries(), &vec![entry("x", "1")]);
}

#[test]
fn absorb_skips_empty_text() {
    let mut set = AggregatedSet::new();
    let step = set.absorb(&text("")).unwrap();
    assert!(matches!(step, Step::Malformed(_)));
    assert_eq!(set.len(), 0);
}

#[test]
fn absorb_skips_trailing_characters() {
    let mut set = AggregatedSet::new();
    let step = set.absorb(&text(r#"{"x":"1"} extra"#)).unwrap();
    assert!(matches!(step, Step::Malformed(_)));
    assert_eq!(set.len(), 0);
}

#[test]
fn absorb_refuses_array_scalar_and_null() {
    for payload in ["[1,2]", "\"text\"", "12", "true", "null"] {
        let mut set = AggregatedSet::new();
        assert_eq!(set.absorb(&text(payload)), Err(FatalError::NotAnObject));
        assert_eq!(set.len(), 0);
    }
}

#[test]
fn absorb_refuses_each_kind_of_non_string_value() {
    for value in ["1", "1.5", "true", "null", "[\"a\"]", "{\"a\":\"b\"}"] {
        let mut set = AggregatedSet::new();
        let payload = format!("{{\"k\":{}}}", value);
        assert_eq!(set.absorb(&text(&payload)), Err(FatalError::NonStringField("k".to_string())));
        assert_eq!(set.len(), 0);
    }
}

#[test]
fn aggregate_of_nothing_is_empty() {
    let aggregation = aggregate(&vec![]).unwrap();
    assert_eq!(aggregation.set.len(), 0);
    assert!(aggregation.steps.is_empty());
}

#[test]
fn two_secrets_later_payload_wins() {
    let outcomes = vec![text(r#"{"x":"1","y":"2"}"#), text(r#"{"y":"3","z":"4"}"#)];
    let aggregation = aggregate(&outcomes).unwrap();
    assert_eq!(aggregation.steps, vec![Step::Merged, Step::Merged]);
    let set = aggregation.set;
    assert_eq!(set.len(), 3);
    assert_eq!(value_of(&set, "x"), Some("1".to_string()));
    assert_eq!(value_of(&set, "y"), Some("3".to_string()));
    assert_eq!(value_of(&set, "z"), Some("4".to_string()));
}

#[test]
fn failed_fetch_leaves_only_successful_keys() {
    let outcomes = vec![FetchOutcome::Failed("timeout".to_string()), text(r#"{"token":"abc"}"#)];
    let aggregation = aggregate(&outcomes).unwrap();
    assert_eq!(aggregation.steps, vec![Step::FetchFailed("timeout".to_string()), Step::Merged]);
    assert_eq!(aggregation.set.entries(), &vec![entry("token", "abc")]);
    assert_eq!(
        aggregation.steps[0].diagnostic("first"),
        Some("[Secret] Failed to retrieve secret first: timeout".to_string())
    );
    assert_eq!(aggregation.steps[1].diagnostic("second"), None);
}

#[test]
fn number_value_ends_the_run() {
    let outcomes = vec![text(r#"{"x":"1"}"#), text(r#"{"port":5432}"#), text(r#"{"z":"4"}"#)];
    let failure = aggregate(&outcomes).unwrap_err();
    assert_eq!(failure, Failure { position: 1, error: FatalError::NonStringField("port".to_string()) });
}

#[test]
fn aggregate_overwritten_number_still_ends_the_run() {
    let outcomes = vec![text(r#"{"x":1}"#), text(r#"{"x":"s"}"#)];
    let failure = aggregate(&outcomes).unwrap_err();
    assert_eq!(failure, Failure { position: 0, error: FatalError::NonStringField("x".to_string()) });
}

#[test]
fn aggregate_reports_first_fatal_payload() {
    let outcomes = vec![text("garbage"), text("[]"), text(r#"{"n":1}"#)];
    let failure = aggregate(&outcomes).unwrap_err();
    assert_eq!(failure, Failure { position: 1, error: FatalError::NotAnObject });
}

#[test]
fn aggregate_skips_all_non_fatal_outcomes() {
    let outcomes = vec![
        FetchOutcome::NoText,
        text("{"),
        FetchOutcome::Failed("denied".to_string()),
        text(r#"{"a":"1"}"#),
    ];
    let aggregation = aggregate(&outcomes).unwrap();
    assert_eq!(aggregation.steps.len(), 4);
    assert_eq!(aggregation.steps[0], Step::NoText);
    assert!(matches!(aggregation.steps[1], Step::Malformed(_)));
    assert_eq!(aggregation.steps[2], Step::FetchFailed("denied".to_string()));
    assert_eq!(aggregation.steps[3], Step::Merged);
    assert_eq!(aggregation.set.entries(), &vec![entry("a", "1")]);
}

#[test]
fn keys_of_set_are_union_of_payload_keys() {
    let outcomes = vec![
        text(r#"{"a":"1","b":"2"}"#),
        FetchOutcome::Failed("gone".to_string()),
        text(r#"{"b":"3","c":"4"}"#),
        text("oops"),
        text(r#"{}"#),
        text(r#"{"d":"5"}"#),
    ];
    let set = aggregate(&outcomes).unwrap().set;
    let mut keys: Vec<String> = set.entries().iter().map(|e| e.key.clone()).collect();
    keys.sort();
    assert_eq!(keys, vec!["a".to_string(), "b".to_string(), "c".to_string(), "d".to_string()]);
}

#[test]
fn last_payload_with_key_gives_value() {
    let outcomes = vec![
        text(r#"{"k":"1","only-first":"a"}"#),
        text(r#"{"k":"2"}"#),
        text(r#"{"other":"x"}"#),
        text(r#"{"k":"3"}"#),
        text(r#"{"tail":"y"}"#),
    ];
    let set = aggregate(&outcomes).unwrap().set;
    assert_eq!(value_of(&set, "k"), Some("3".to_string()));
    assert_eq!(value_of(&set, "only-first"), Some("a".to_string()));
    assert_eq!(set.len(), 4);
}

#[test]
fn duplicate_key_in_one_payload_last_wins() {
    let set = aggregate(&vec![text(r#"{"k":"1","k":"2"}"#)]).unwrap().set;
    assert_eq!(set.entries(), &vec![entry("k", "2")]);
}

#[test]
fn aggregate_keeps_first_arrival_order() {
    let outcomes = vec![text(r#"{"m":"1"}"#), text(r#"{"a":"2","m":"3"}"#), text(r#"{"z":"4","b":"5"}"#)];
    let set = aggregate(&outcomes).unwrap().set;
    assert_eq!(set.entries(), &vec![entry("m", "3"), entry("a", "2"), entry("b", "5"), entry("z", "4")]);
}

#[test]
fn diagnostic_for_malformed_payload() {
    let step = Step::Malformed("expected value at line 1 column 1".to_string());
    assert_eq!(
        step.diagnostic("prod/db"),
        Some("[Secret] Failed to parse secret prod/db: expected value at line 1 column 1".to_string())
    );
}

#[test]
fn no_diagnostic_for_merge_or_missing_text() {
    assert_eq!(Step::Merged.diagnostic("a"), None);
    assert_eq!(Step::NoText.diagnostic("a"), None);
}

#[test]
fn fatal_messages() {
    assert_eq!(FatalError::NotAnObject.message("prod/db"), "[Secret] Secret prod/db is not a JSON object");
    assert_eq!(
        FatalError::NonStringField("port".to_string()).message("prod/db"),
        "[Secret] Secret prod/db holds a value that is not a string in field port"
    );
}
