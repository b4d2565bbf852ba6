use provcfg::{Category, Config, Field, LeafKind, Schema, Setting};

fn text(s: &str) -> Setting {
    Setting::Text(s.to_string())
}

fn vars(pairs: &[(&str, &str)]) -> Vec<(String, String)> {
    pairs.iter().map(|(k, v)| (k.to_string(), v.to_string())).collect()
}

fn with_skipped() -> Schema {
    Schema::new()
        .field(Field::new("host", LeafKind::Text, text("")))
        .field(Field::new("runtime_state", LeafKind::TextList, Setting::List(Vec::new())).skip())
}

/// `WithSecret { name: String, #[secret] password: String }`.
fn with_secret() -> Schema {
    Schema::new()
        .field(Field::new("name", LeafKind::Text, text("")))
        .field(Field::new("password", LeafKind::Text, text("")).secret())
}

/// `Renamed { #[rename = "HOSTNAME"] host: String }`.
fn renamed() -> Schema {
    Schema::new().field(Field::new("host", LeafKind::Text, text("")).rename("HOSTNAME"))
}

/// `WithList { #[env_list] items: Vec<String> }`.
fn with_list() -> Schema {
    Schema::new().field(Field::new("items", LeafKind::TextList, Setting::List(Vec::new())).env_list())
}

#[test]
fn skip_attribute_excludes_field_from_config() {
    let config = Config::new().add_json_str("k.json", r#"{"host": "db.example"}"#);
    let cfg = config.build(&with_skipped()).unwrap();

    assert_eq!(cfg.leaf("host").unwrap().value(), &text("db.example"));

    let map = cfg.sources_map();
    assert_eq!(map.get("host"), Some(&Category::File));
    assert!(
        !map.contains_key("runtime_state"),
        "skipped field must not appear in sources_map"
    );
}

#[test]
fn rename_attribute_changes_env_lookup_name() {
    let prefix = "PROVCFG_TEST_STEP13";
    let env = vars(&[(&format!("{prefix}_HOSTNAME"), "x")]);

    let config = Config::new().with_environment(env).add_env(prefix);
    let cfg = config.build(&renamed()).unwrap();

    assert_eq!(cfg.leaf("host").unwrap().value(), &text("x"));
    assert_eq!(cfg.leaf("host").unwrap().source().category(), Category::Env);
}

#[test]
fn env_list_attribute_accepts_comma_string_from_env() {
    let prefix = "PROVCFG_TEST_ENV_LIST";
    let env = vars(&[(&format!("{prefix}_ITEMS"), "foo,bar,baz")]);

    let config = Config::new().with_environment(env).add_env(prefix);
    let cfg = config.build(&with_list()).unwrap();

    assert_eq!(
        cfg.leaf("items").unwrap().value(),
        &Setting::List(vec!["foo".to_string(), "bar".to_string(), "baz".to_string()])
    );
    assert_eq!(cfg.leaf("items").unwrap().source().category(), Category::Env);
}

#[test]
fn env_list_attribute_still_accepts_toml_array() {
    let config = Config::new().add_toml_str("k.toml", r#"items = ["foo", "bar"]"#);
    let cfg = config.build(&with_list()).unwrap();
    assert_eq!(
        cfg.leaf("items").unwrap().value(),
        &Setting::List(vec!["foo".to_string(), "bar".to_string()])
    );
}

#[test]
fn secret_attribute_marks_value_history() {
    let config = Config::new();
    let cfg = config.build(&with_secret()).unwrap();

    assert!(
        !cfg.leaf("name").unwrap().is_secret(),
        "non-secret field should not be marked"
    );
    assert!(
        cfg.leaf("password").unwrap().is_secret(),
        "secret-attributed field should be marked"
    );
}
