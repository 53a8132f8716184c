use mastermind::config::{
    default_model_ids, ensure_trailing_slash, plan_selection, resolve_setting, Config,
    ConfigError, SelectionPlan,
};

#[test]
fn getters_skip_absent_and_empty_values() {
    let config = Config {
        base_url: Some("https://example.test/v1".to_string()),
        api_key: Some("".to_string()),
        default_model: None,
    };
    assert_eq!(config.get_base_url(), Some("https://example.test/v1"));
    assert_eq!(config.get_api_key(), None);
    assert_eq!(config.get_default_model(), None);
}

#[test]
fn config_error_messages_name_their_kind() {
    assert_eq!(
        ConfigError::FileNotFound("missing.toml".to_string()).message(),
        "File not found: missing.toml"
    );
    assert_eq!(
        ConfigError::ParseError("bad key".to_string()).message(),
        "Parse error: bad key"
    );
    assert_eq!(
        ConfigError::IoError("denied".to_string()).message(),
        "IO error: denied"
    );
}

#[test]
fn resolve_setting_prefers_the_environment() {
    let r = resolve_setting(
        Some("from-env".to_string()),
        Some("from-config".to_string()),
        "API_KEY",
    );
    assert_eq!(r.unwrap(), "from-env");
}

#[test]
fn resolve_setting_falls_back_to_the_config_file() {
    let r = resolve_setting(None, Some("from-config".to_string()), "API_KEY");
    assert_eq!(r.unwrap(), "from-config");
}

#[test]
fn resolve_setting_reports_the_missing_variable() {
    let r = resolve_setting(None, None, "API_KEY");
    assert_eq!(
        r.unwrap_err(),
        "Could not find environment variable 'API_KEY' or any related configuration\nPlease check you config file"
    );
}

#[test]
fn trailing_slash_is_added_once() {
    assert_eq!(ensure_trailing_slash("abc".to_string()), "abc/");
    assert_eq!(ensure_trailing_slash("abc/".to_string()), "abc/");
    assert_eq!(ensure_trailing_slash("".to_string()), "/");
}

#[test]
fn plan_selection_recognizes_the_interactive_sentinel() {
    match plan_selection(Some(vec!["interactive".to_string()])) {
        SelectionPlan::Interactive => {}
        _ => panic!("expected an interactive plan"),
    }
}

#[test]
fn plan_selection_uses_given_models() {
    match plan_selection(Some(vec!["m1".to_string(), "m2".to_string()])) {
        SelectionPlan::Chosen(ids) => {
            assert_eq!(ids, vec!["m1".to_string(), "m2".to_string()])
        }
        _ => panic!("expected the given models"),
    }
}

#[test]
fn plan_selection_defers_to_the_default() {
    match plan_selection(None) {
        SelectionPlan::NeedDefault => {}
        _ => panic!("expected a fallback to the default"),
    }
}

#[test]
fn default_model_prefers_the_environment() {
    let r = default_model_ids(Some("env-model".to_string()), Some("cfg-model".to_string()));
    assert_eq!(r.unwrap(), vec!["env-model".to_string()]);
    let r = default_model_ids(None, Some("cfg-model".to_string()));
    assert_eq!(r.unwrap(), vec!["cfg-model".to_string()]);
    let r = default_model_ids(None, None);
    assert_eq!(r.unwrap_err(), "No default model found");
}
