use provcfg::{Category, Config, Field, LeafKind, Partial, Schema, Setting};

fn text(s: &str) -> Setting {
    Setting::Text(s.to_string())
}

fn database_config() -> Schema {
    Schema::new()
        .field(Field::new("host", LeafKind::Text, text("")))
        .field(Field::new("port", LeafKind::U16, Setting::Int(0)))
}

fn app_config() -> Schema {
    Schema::new()
        .nested("database", &database_config())
        .field(Field::new("name", LeafKind::Text, text("")))
}

fn vars(pairs: &[(&str, &str)]) -> Vec<(String, String)> {
    pairs.iter().map(|(k, v)| (k.to_string(), v.to_string())).collect()
}

#[test]
fn build_with_no_sources_uses_defaults() {
    let config = Config::new();
    let db = config.build(&database_config()).unwrap();

    let host = db.leaf("host").unwrap();
    assert_eq!(host.value(), &text(""));
    assert_eq!(host.source().category(), Category::Default);
    assert_eq!(host.source().name(), "default");

    let port = db.leaf("port").unwrap();
    assert_eq!(port.value(), &Setting::Int(0));
    assert_eq!(port.source().category(), Category::Default);
}

#[test]
fn unset_field_falls_back_to_default_category() {
    let host_only = r#"{ "host": "db.example" }"#;

    let config = Config::new().add_json_str("host.json", host_only);

    let db = config.build(&database_config()).unwrap();

    assert_eq!(db.leaf("host").unwrap().value(), &text("db.example"));
    assert_eq!(db.leaf("host").unwrap().source().category(), Category::File);

    assert_eq!(db.leaf("port").unwrap().value(), &Setting::Int(0));
    assert_eq!(db.leaf("port").unwrap().source().category(), Category::Default);
}

#[test]
fn layered_sources_each_supply_subset_of_fields() {
    let host_only = r#"{ "host": "db.example" }"#;
    let port_only = r#"{ "port": 9000 }"#;

    let config = Config::new()
        .add_json_str("host.json", host_only)
        .add_json_str("port.json", port_only);

    let db = config.build(&database_config()).unwrap();

    assert_eq!(db.leaf("host").unwrap().value(), &text("db.example"));
    assert_eq!(db.leaf("host").unwrap().source().name(), "host.json");
    assert_eq!(db.leaf("port").unwrap().value(), &Setting::Int(9000));
    assert_eq!(db.leaf("port").unwrap().source().name(), "port.json");
}

#[test]
fn nested_struct_carries_provenance_per_leaf() {
    let toml = r#"
name = "my-app"
[database]
host = "db.example"
"#;

    let config = Config::new().add_toml_str("app.toml", toml);

    let app = config.build(&app_config()).unwrap();

    assert_eq!(app.leaf("name").unwrap().value(), &text("my-app"));
    assert_eq!(app.leaf("name").unwrap().source().category(), Category::File);

    assert_eq!(app.leaf("database.host").unwrap().value(), &text("db.example"));
    assert_eq!(app.leaf("database.host").unwrap().source().category(), Category::File);

    assert_eq!(app.leaf("database.port").unwrap().value(), &Setting::Int(0));
    assert_eq!(app.leaf("database.port").unwrap().source().category(), Category::Default);
}

#[test]
fn sources_map_flattens_provenance_to_dotted_paths() {
    let toml = r#"
name = "my-app"
[database]
host = "db.example"
"#;

    let config = Config::new().add_toml_str("k.toml", toml);
    let app = config.build(&app_config()).unwrap();

    let map = app.sources_map();
    assert_eq!(map.get("name"), Some(&Category::File));
    assert_eq!(map.get("database.host"), Some(&Category::File));
    assert_eq!(map.get("database.port"), Some(&Category::Default));
}

#[test]
fn full_layered_stack_defaults_toml_env_cli() {
    let prefix = "PROVCFG_TEST_FULL_STACK";
    let env = vars(&[(&format!("{prefix}_HOST"), "env.example")]);

    let cli_partial = Partial::new().with("port", Setting::Int(3));

    let config = Config::new()
        .with_environment(env)
        .add_toml_str("app.toml", "host = \"toml.example\"\nport = 1\n")
        .add_env(prefix)
        .add_cli(cli_partial);

    let db = config.build(&database_config()).unwrap();

    assert_eq!(db.leaf("host").unwrap().value(), &text("env.example"));
    assert_eq!(db.leaf("host").unwrap().source().category(), Category::Env);
    assert_eq!(db.leaf("port").unwrap().value(), &Setting::Int(3));
    assert_eq!(db.leaf("port").unwrap().source().category(), Category::Cli);

    let map = db.sources_map();
    assert_eq!(map.get("host"), Some(&Category::Env));
    assert_eq!(map.get("port"), Some(&Category::Cli));
}
