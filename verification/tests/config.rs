use mda_core::config::{validate_config, workspace_id, Backend, CLI_POLICY};
use mda_core::error::Error;
use mda_core::walk::override_globs;

fn check(model: &str, concurrency: Option<u16>, budget_ok: bool, timeout: u64, backend: Backend, ack: bool) -> Result<(), Error> {
    validate_config(model, concurrency, budget_ok, timeout, backend, ack, "https://api.example", "http://127.0.0.1:8080/v1")
}

#[test]
fn defaults_are_valid_and_each_bad_value_is_a_config_error() {
    assert!(check("haiku", None, true, 90, Backend::Api, false).is_ok());
    assert!(matches!(check("  ", None, true, 90, Backend::Api, false), Err(Error::Config(_))));
    assert!(matches!(check("haiku", Some(0), true, 90, Backend::Api, false), Err(Error::Config(_))));
    assert!(matches!(check("haiku", None, false, 90, Backend::Api, false), Err(Error::Config(_))));
    assert!(matches!(check("haiku", None, true, 0, Backend::Api, false), Err(Error::Config(_))));
    assert!(matches!(
        validate_config("haiku", None, true, 90, Backend::Api, false, " ", "x"),
        Err(Error::Config(_))
    ));
}

#[test]
fn the_cli_backend_needs_its_acknowledgement() {
    match check("haiku", None, true, 90, Backend::Cli, false) {
        Err(Error::Config(m)) => {
            assert_eq!(m, CLI_POLICY);
            assert!(m.contains("cli_policy_ack"));
        }
        other => panic!("{other:?}"),
    }
    assert!(check("haiku", None, true, 90, Backend::Cli, true).is_ok());
    assert!(check("haiku", None, true, 90, Backend::Local, false).is_ok());
}

#[test]
fn workspace_id_prefers_the_trimmed_config_then_the_environment() {
    assert_eq!(workspace_id(Some("  ws-1 "), Some("env".into())), Some("ws-1".to_owned()));
    assert_eq!(workspace_id(Some("   "), Some("env".into())), Some("env".to_owned()));
    assert_eq!(workspace_id(None, Some("  ".into())), None);
    assert_eq!(workspace_id(None, None), None);
}

#[test]
fn ignore_patterns_become_override_globs_with_the_state_and_git_dirs() {
    let globs = override_globs(&vec!["node_modules/".to_owned(), "!keep.md".to_owned()]);
    assert_eq!(globs, vec!["!node_modules/", "keep.md", "!.markdownattractor/", "!.git/"]);
    assert_eq!(override_globs(&Vec::new()), vec!["!.markdownattractor/", "!.git/"]);
}
