//! Tests for the configuration-listing keywords and the repository
//! initialisation decision.

use jj_annotate::{
    config_template_language, AnnotatedValue, ConfigTemplateProperty, GitInitArgs, GitInitError,
    GitInitMode,
};

fn bytes(s: &str) -> Vec<u8> {
    s.as_bytes().to_vec()
}

fn sample_value() -> AnnotatedValue {
    AnnotatedValue {
        name: bytes("ui.color"),
        value_text: bytes("\"auto\""),
        is_overridden: true,
    }
}

#[test]
fn config_language_has_three_keywords() {
    let lang = config_template_language();
    assert_eq!(lang.keywords, vec![bytes("name"), bytes("value"), bytes("overridden")]);
}

#[test]
fn config_keyword_name() {
    let lang = config_template_language();
    match lang.evaluate_keyword(&bytes("name"), &sample_value()) {
        Some(ConfigTemplateProperty::Text(t)) => assert_eq!(t, bytes("ui.color")),
        other => panic!("unexpected property: {:?}", other),
    }
}

#[test]
fn config_keyword_value() {
    let lang = config_template_language();
    match lang.evaluate_keyword(&bytes("value"), &sample_value()) {
        Some(ConfigTemplateProperty::Text(t)) => assert_eq!(t, bytes("\"auto\"")),
        other => panic!("unexpected property: {:?}", other),
    }
}

#[test]
fn config_keyword_overridden() {
    let lang = config_template_language();
    match lang.evaluate_keyword(&bytes("overridden"), &sample_value()) {
        Some(ConfigTemplateProperty::Boolean(b)) => assert!(b),
        other => panic!("unexpected property: {:?}", other),
    }
}

#[test]
fn config_keyword_unknown() {
    let lang = config_template_language();
    assert!(lang.evaluate_keyword(&bytes("author"), &sample_value()).is_none());
}

fn args(colocate: bool, git_repo: Option<&str>) -> GitInitArgs {
    GitInitArgs {
        destination: ".".to_string(),
        colocate,
        git_repo: git_repo.map(|s| s.to_string()),
    }
}

#[test]
fn git_init_colocate_reuses_existing() {
    assert_eq!(args(true, None).init_mode(true), Ok(GitInitMode::External));
}

#[test]
fn git_init_colocate_fresh() {
    assert_eq!(args(true, None).init_mode(false), Ok(GitInitMode::Colocate));
}

#[test]
fn git_init_external_repo_argument() {
    assert_eq!(args(false, Some("../backing/.git")).init_mode(false), Ok(GitInitMode::External));
}

#[test]
fn git_init_refuses_shadowing_existing_git() {
    assert_eq!(args(false, None).init_mode(true), Err(GitInitError::ExistingGitRepo));
}

#[test]
fn git_init_internal_by_default() {
    assert_eq!(args(false, None).init_mode(false), Ok(GitInitMode::Internal));
}
