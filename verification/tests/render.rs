use secret_env::aggregate::aggregate;
use secret_env::naming::{CaseTransform, NamingPolicy};
use secret_env::parse::{parse, parse_line};
use secret_env::payload::FetchOutcome;
use secret_env::render::{render, render_line, render_lines};
use secret_env::set::AggregatedSet;

fn policy(prefix: &str, case: CaseTransform) -> NamingPolicy {
    NamingPolicy { prefix: prefix.to_string(), case }
}

fn pair(name: &str, value: &str) -> (String, String) {
    (name.to_string(), value.to_string())
}

fn set_of(pairs: &[(&str, &str)]) -> AggregatedSet {
    let mut set = AggregatedSet::new();
    for (key, value) in pairs {
        set.insert(key.to_string(), value.to_string());
    }
    set
}

#[test]
fn render_line_has_exact_shape() {
    assert_eq!(render_line("NAME", "value"), "export NAME='value'\n");
}

#[test]
fn render_line_with_empty_name_and_value() {
    assert_eq!(render_line("", ""), "export =''\n");
}

#[test]
fn render_line_does_not_escape() {
    assert_eq!(render_line("K", "it's"), "export K='it's'\n");
    assert_eq!(render_line("K", "a\nb"), "export K='a\nb'\n");
    assert_eq!(render_line("K", "$HOME \"q\" \\"), "export K='$HOME \"q\" \\'\n");
}

#[test]
fn render_lines_of_empty_set() {
    assert!(render_lines(&AggregatedSet::new(), &policy("", CaseTransform::Unchanged)).is_empty());
    assert_eq!(render(&AggregatedSet::new(), &policy("app", CaseTransform::Upper)), "");
}

#[test]
fn two_secrets_rendered() {
    let outcomes = vec![
        FetchOutcome::Text(r#"{"x":"1","y":"2"}"#.to_string()),
        FetchOutcome::Text(r#"{"y":"3","z":"4"}"#.to_string()),
    ];
    let set = aggregate(&outcomes).unwrap().set;
    let mut lines = render_lines(&set, &policy("", CaseTransform::Unchanged));
    lines.sort();
    assert_eq!(lines, vec!["export x='1'\n", "export y='3'\n", "export z='4'\n"]);
}

#[test]
fn render_lines_apply_policy_in_set_order() {
    let set = set_of(&[("db-host", "localhost"), ("Api-Key", "s3cr3t")]);
    let lines = render_lines(&set, &policy("app", CaseTransform::Upper));
    assert_eq!(lines, vec!["export APP_DB_HOST='localhost'\n", "export APP_API_KEY='s3cr3t'\n"]);
}

#[test]
fn render_is_lines_one_after_the_other() {
    let set = set_of(&[("db-host", "localhost"), ("Api-Key", "s3cr3t")]);
    let naming = policy("App", CaseTransform::Lower);
    assert_eq!(render(&set, &naming), "export app_db_host='localhost'\nexport app_api_key='s3cr3t'\n");
    assert_eq!(render(&set, &naming), render_lines(&set, &naming).concat());
}

#[test]
fn render_keeps_colliding_names_as_two_lines() {
    let set = set_of(&[("a-b", "1"), ("a_b", "2")]);
    let text = render(&set, &policy("", CaseTransform::Unchanged));
    assert_eq!(text, "export a_b='1'\nexport a_b='2'\n");
}

#[test]
fn parse_line_reads_name_and_value() {
    assert_eq!(parse_line("export NAME='value'"), Some(pair("NAME", "value")));
    assert_eq!(parse_line("export =''"), Some(pair("", "")));
    assert_eq!(parse_line("export A=''"), Some(pair("A", "")));
}

#[test]
fn parse_line_keeps_quotes_inside_value() {
    assert_eq!(parse_line("export K='it's'"), Some(pair("K", "it's")));
    assert_eq!(parse_line("export K='a='b'"), Some(pair("K", "a='b")));
    assert_eq!(parse_line("export K='''"), Some(pair("K", "'")));
}

#[test]
fn parse_line_name_ends_at_first_assignment() {
    assert_eq!(parse_line("export a=='v'"), Some(pair("a=", "v")));
    assert_eq!(parse_line("export a b='v'"), Some(pair("a b", "v")));
}

#[test]
fn parse_line_refuses_other_lines() {
    assert_eq!(parse_line(""), None);
    assert_eq!(parse_line("export "), None);
    assert_eq!(parse_line("export A='"), None);
    assert_eq!(parse_line("export A=v"), None);
    assert_eq!(parse_line("export A=\"v\""), None);
    assert_eq!(parse_line("Export A='v'"), None);
    assert_eq!(parse_line("exportA='v'"), None);
    assert_eq!(parse_line(" export A='v'"), None);
    assert_eq!(parse_line("export A='v' "), None);
    assert_eq!(parse_line("export A='v'\n"), None);
    assert_eq!(parse_line("A='v'"), None);
}

#[test]
fn parse_reads_every_line() {
    assert_eq!(parse(""), Some(vec![]));
    assert_eq!(parse("export A='1'\n"), Some(vec![pair("A", "1")]));
    assert_eq!(parse("export A='1'\nexport B='2'\n"), Some(vec![pair("A", "1"), pair("B", "2")]));
}

#[test]
fn parse_refuses_text_with_a_bad_line() {
    assert_eq!(parse("export A='1'"), None);
    assert_eq!(parse("\n"), None);
    assert_eq!(parse("export A='1'\n\n"), None);
    assert_eq!(parse("export A='1'\nB=2\n"), None);
    assert_eq!(parse("export A='1'\nexport B='2'"), None);
}

#[test]
fn rendering_then_parsing_gives_the_named_pairs() {
    let set = set_of(&[("db-host", "localhost"), ("api-key", "it's a 'secret' = \"x\""), ("empty", "")]);
    let naming = policy("app", CaseTransform::Upper);
    let parsed = parse(&render(&set, &naming)).unwrap();
    assert_eq!(
        parsed,
        vec![
            pair("APP_DB_HOST", "localhost"),
            pair("APP_API_KEY", "it's a 'secret' = \"x\""),
            pair("APP_EMPTY", ""),
        ]
    );
}

#[test]
fn round_trip_does_not_depend_on_line_order() {
    let forward = set_of(&[("a", "1"), ("b", "2"), ("c", "3")]);
    let backward = set_of(&[("c", "3"), ("b", "2"), ("a", "1")]);
    let naming = policy("", CaseTransform::Unchanged);
    let mut first = parse(&render(&forward, &naming)).unwrap();
    let mut second = parse(&render(&backward, &naming)).unwrap();
    assert_ne!(first, second);
    first.sort();
    second.sort();
    assert_eq!(first, second);
    assert_eq!(first, vec![pair("a", "1"), pair("b", "2"), pair("c", "3")]);
}

#[test]
fn value_with_newline_does_not_round_trip() {
    let set = set_of(&[("k", "a\nb")]);
    assert_eq!(parse(&render(&set, &policy("", CaseTransform::Unchanged))), None);
}

#[test]
fn name_with_assignment_does_not_round_trip() {
    let set = set_of(&[("a='b", "v")]);
    let parsed = parse(&render(&set, &policy("", CaseTransform::Unchanged)));
    assert_eq!(parsed, Some(vec![pair("a", "b='v")]));
}
