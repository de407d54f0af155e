use secret_env::naming::{qualified_name, sanitize_key, CaseTransform, NamingPolicy};

fn policy(prefix: &str, case: CaseTransform) -> NamingPolicy {
    NamingPolicy { prefix: prefix.to_string(), case }
}

#[test]
fn prefixed_upper_name() {
    assert_eq!(policy("app", CaseTransform::Upper).transform("db-host"), "APP_DB_HOST");
}

#[test]
fn sanitize_replaces_every_dash() {
    assert_eq!(sanitize_key("db-host"), "db_host");
    assert_eq!(sanitize_key("--a--b-"), "__a__b_");
    assert_eq!(sanitize_key("plain"), "plain");
    assert_eq!(sanitize_key(""), "");
}

#[test]
fn sanitize_keeps_other_characters() {
    assert_eq!(sanitize_key("a.b/c d=e'f_g"), "a.b/c d=e'f_g");
    assert_eq!(sanitize_key("clé-zürich–x"), "clé_zürich–x");
}

#[test]
fn qualified_name_without_prefix() {
    assert_eq!(qualified_name("db-host", ""), "db_host");
}

#[test]
fn qualified_name_with_prefix() {
    assert_eq!(qualified_name("db-host", "app"), "app_db_host");
}

#[test]
fn prefix_is_not_sanitized() {
    assert_eq!(qualified_name("db-host", "my-app"), "my-app_db_host");
}

#[test]
fn transform_without_case_keeps_letters() {
    assert_eq!(policy("", CaseTransform::Unchanged).transform("Db-Host"), "Db_Host");
    assert_eq!(policy("App", CaseTransform::Unchanged).transform("Db-Host"), "App_Db_Host");
}

#[test]
fn transform_lower_covers_prefix_and_key() {
    assert_eq!(policy("APP", CaseTransform::Lower).transform("DB-Host"), "app_db_host");
}

#[test]
fn transform_upper_covers_prefix_and_key() {
    assert_eq!(policy("app", CaseTransform::Upper).transform("db-host"), "APP_DB_HOST");
    assert_eq!(policy("", CaseTransform::Upper).transform("x"), "X");
}

#[test]
fn transform_cases_beyond_ascii() {
    assert_eq!(policy("", CaseTransform::Upper).transform("straße-é"), "STRASSE_É");
    assert_eq!(policy("", CaseTransform::Lower).transform("ÉCOLE-Ω"), "école_ω");
}

#[test]
fn transform_of_empty_key() {
    assert_eq!(policy("", CaseTransform::Unchanged).transform(""), "");
    assert_eq!(policy("app", CaseTransform::Upper).transform(""), "APP_");
}

#[test]
fn case_transform_from_flag() {
    assert_eq!(CaseTransform::from_flag("lower"), CaseTransform::Lower);
    assert_eq!(CaseTransform::from_flag("upper"), CaseTransform::Upper);
    assert_eq!(CaseTransform::from_flag(""), CaseTransform::Unchanged);
    assert_eq!(CaseTransform::from_flag("none"), CaseTransform::Unchanged);
    assert_eq!(CaseTransform::from_flag("Lower"), CaseTransform::Unchanged);
    assert_eq!(CaseTransform::from_flag("UPPER"), CaseTransform::Unchanged);
    assert_eq!(CaseTransform::from_flag("lower "), CaseTransform::Unchanged);
    assert_eq!(CaseTransform::from_flag("lowe"), CaseTransform::Unchanged);
}

#[test]
fn transform_is_idempotent_without_prefix() {
    for case in [CaseTransform::Unchanged, CaseTransform::Lower, CaseTransform::Upper] {
        let naming = policy("", case);
        let once = naming.transform("Db-Host-1");
        assert_eq!(naming.transform(&once), once);
    }
}

#[test]
fn transform_with_prefix_grows_on_each_application() {
    let naming = policy("p", CaseTransform::Unchanged);
    assert_eq!(naming.transform("a"), "p_a");
    assert_eq!(naming.transform("p_a"), "p_p_a");
}

#[test]
fn prefixed_name_is_its_own_name_without_prefix() {
    let once = policy("my_app", CaseTransform::Unchanged).transform("Db-Host-1");
    assert_eq!(once, "my_app_Db_Host_1");
    assert_eq!(policy("", CaseTransform::Unchanged).transform(&once), once);
    for case in [CaseTransform::Lower, CaseTransform::Upper] {
        let cased = policy("my_app", case).transform("Db-Host-1");
        assert_eq!(policy("", case).transform(&cased), cased);
    }
}
