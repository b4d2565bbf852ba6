use provcfg::{Category, Config, ConfigError, Field, JsonStr, LeafKind, Partial, Schema, Setting};

fn text(s: &str) -> Setting {
    Setting::Text(s.to_string())
}

fn database_config() -> Schema {
    Schema::new()
        .field(Field::new("host", LeafKind::Text, text("")))
        .field(Field::new("port", LeafKind::U16, Setting::Int(0)))
}

fn app_config() -> Schema {
    Schema::new()
        .nested("database", &database_config())
        .field(Field::new("name", LeafKind::Text, text("")))
}

fn vars(pairs: &[(&str, &str)]) -> Vec<(String, String)> {
    pairs.iter().map(|(k, v)| (k.to_string(), v.to_string())).collect()
}

#[test]
fn json_source_has_file_category() {
    let src = JsonStr::new("app.json", "{}");
    assert_eq!(src.category(), Category::File);
}

#[test]
fn malformed_json_error_display() {
    let config = Config::new().add_json_str("broken.json", "{ not valid json");

    let err = match config.build(&database_config()) {
        Ok(_) => panic!("expected build to fail on malformed JSON"),
        Err(e) => e,
    };
    let msg = err.message();

    assert!(
        msg.contains("broken.json"),
        "error message should name the source, got: {msg}"
    );
    assert!(
        !err.cause().is_empty(),
        "error should carry the underlying serde error as a source"
    );
}

#[test]
fn env_source_reads_flat_fields_with_env_category() {
    let prefix = "PROVCFG_TEST_STEP10";
    let env = vars(&[
        (&format!("{prefix}_HOST"), "env.example"),
        (&format!("{prefix}_PORT"), "4242"),
    ]);

    let config = Config::new().with_environment(env).add_env(prefix);

    let db = config.build(&database_config()).unwrap();

    assert_eq!(db.leaf("host").unwrap().value(), &text("env.example"));
    assert_eq!(db.leaf("host").unwrap().source().category(), Category::Env);
    assert_eq!(db.leaf("port").unwrap().value(), &Setting::Int(4242));
    assert_eq!(db.leaf("port").unwrap().source().category(), Category::Env);
}

#[test]
fn env_source_supports_nested_via_double_underscore() {
    let prefix = "PROVCFG_TEST_STEP11";
    let env = vars(&[
        (&format!("{prefix}_NAME"), "my-app-env"),
        (&format!("{prefix}_DATABASE__HOST"), "env.example"),
    ]);

    let config = Config::new().with_environment(env).add_env(prefix);

    let app = config.build(&app_config()).unwrap();

    assert_eq!(app.leaf("name").unwrap().value(), &text("my-app-env"));
    assert_eq!(app.leaf("name").unwrap().source().category(), Category::Env);

    assert_eq!(app.leaf("database.host").unwrap().value(), &text("env.example"));
    assert_eq!(app.leaf("database.host").unwrap().source().category(), Category::Env);

    assert_eq!(app.leaf("database.port").unwrap().value(), &Setting::Int(0));
    assert_eq!(app.leaf("database.port").unwrap().source().category(), Category::Default);
}

#[test]
fn env_source_with_list_keys_splits_csv_for_named_paths() {
    // `Top { #[nested] section: Section { items: Vec<String>, other: String } }`
    let section = Schema::new()
        .field(Field::new("items", LeafKind::TextList, Setting::List(Vec::new())))
        .field(Field::new("other", LeafKind::Text, text("")));
    let top = Schema::new().nested("section", &section);

    let prefix = "PROVCFG_TEST_LIST_KEYS";
    let env = vars(&[
        (&format!("{prefix}_SECTION__ITEMS"), "foo,bar,baz"),
        (&format!("{prefix}_SECTION__OTHER"), "hello,world"),
    ]);

    let config = Config::new()
        .with_environment(env)
        .add_env_with_list_keys(prefix, &["section.items"]);
    let cfg = config.build(&top).unwrap();

    assert_eq!(
        cfg.leaf("section.items").unwrap().value(),
        &Setting::List(vec!["foo".to_string(), "bar".to_string(), "baz".to_string()])
    );
    // `other` is not a list key, so the comma stays inside the string.
    assert_eq!(cfg.leaf("section.other").unwrap().value(), &text("hello,world"));
}

#[test]
fn cli_source_supplies_prebuilt_partial() {
    let cli = Partial::new().with("host", text("cli.example"));

    let config = Config::new().add_cli(cli);
    let db = config.build(&database_config()).unwrap();

    assert_eq!(db.leaf("host").unwrap().value(), &text("cli.example"));
    assert_eq!(db.leaf("host").unwrap().source().category(), Category::Cli);

    assert_eq!(db.leaf("port").unwrap().value(), &Setting::Int(0));
    assert_eq!(db.leaf("port").unwrap().source().category(), Category::Default);
}

#[test]
fn toml_source_provides_values_and_file_category() {
    let toml = r#"
host = "db.example"
port = 9000
"#;

    let config = Config::new().add_toml_str("app.toml", toml);

    let db = config.build(&database_config()).unwrap();

    assert_eq!(db.leaf("host").unwrap().value(), &text("db.example"));
    assert_eq!(db.leaf("host").unwrap().source().name(), "app.toml");
    assert_eq!(db.leaf("host").unwrap().source().category(), Category::File);
    assert_eq!(db.leaf("port").unwrap().value(), &Setting::Int(9000));
    assert_eq!(db.leaf("port").unwrap().source().category(), Category::File);
}

#[test]
fn add_json_file_reads_disk_and_tags_provenance() {
    // The file's text, as reading `app.json` gives it.
    let read: Result<String, String> = Ok(r#"{ "host": "from-file", "port": 8080 }"#.to_string());

    let cfg = Config::new()
        .add_json_file_contents("app.json", read)
        .unwrap()
        .build(&database_config())
        .unwrap();

    assert_eq!(cfg.leaf("host").unwrap().value(), &text("from-file"));
    assert_eq!(cfg.leaf("port").unwrap().value(), &Setting::Int(8080));
    assert_eq!(cfg.leaf("host").unwrap().source().category(), Category::File);
}

#[test]
fn add_json_file_missing_path_returns_io_error() {
    // What reading a missing path gives.
    let read: Result<String, String> = Err("No such file or directory (os error 2)".to_string());
    let err = match Config::new().add_json_file_contents("/provcfg/no/such/file.json", read) {
        Ok(_) => panic!("expected an Io error for a missing path"),
        Err(e) => e,
    };
    assert!(matches!(err, ConfigError::Io { .. }));
}

#[test]
fn add_toml_file_reads_disk_and_tags_provenance() {
    let read: Result<String, String> = Ok("host = \"from-file\"\nport = 8080\n".to_string());

    let cfg = Config::new()
        .add_toml_file_contents("app.toml", read)
        .unwrap()
        .build(&database_config())
        .unwrap();

    assert_eq!(cfg.leaf("host").unwrap().value(), &text("from-file"));
    assert_eq!(cfg.leaf("port").unwrap().value(), &Setting::Int(8080));
    assert_eq!(cfg.leaf("host").unwrap().source().category(), Category::File);
}

#[test]
fn add_toml_file_missing_path_returns_io_error() {
    let read: Result<String, String> = Err("No such file or directory (os error 2)".to_string());
    let err = match Config::new().add_toml_file_contents("/provcfg/no/such/file.toml", read) {
        Ok(_) => panic!("expected an Io error for a missing path"),
        Err(e) => e,
    };
    assert!(matches!(err, ConfigError::Io { .. }));
}

#[test]
fn env_parent_child_collision_resolves_deterministically_to_child() {
    // `<PREFIX>_DATABASE` (a scalar) and `<PREFIX>_DATABASE__HOST` (a deeper
    // key under the same parent) collide. The shorter name is applied first,
    // and the deeper one turns the parent into an object and wins, whatever
    // order the variables come in.
    let prefix = "PROVCFG_COLLISION";
    for env in [
        vars(&[
            (&format!("{prefix}_DATABASE"), "ignored-scalar"),
            (&format!("{prefix}_DATABASE__HOST"), "env.example"),
        ]),
        vars(&[
            (&format!("{prefix}_DATABASE__HOST"), "env.example"),
            (&format!("{prefix}_DATABASE"), "ignored-scalar"),
        ]),
    ] {
        let app = Config::new()
            .with_environment(env)
            .add_env(prefix)
            .build(&app_config())
            .unwrap();

        assert_eq!(app.leaf("database.host").unwrap().value(), &text("env.example"));
        assert_eq!(app.leaf("database.host").unwrap().source().category(), Category::Env);
    }
}
