use provcfg::{Category, Config, Field, LeafKind, Partial, Schema, Setting};

fn text(s: &str) -> Setting {
    Setting::Text(s.to_string())
}

/// `DatabaseConfig { host: String, port: u16 }`.
fn database_config() -> Schema {
    Schema::new()
        .field(Field::new("host", LeafKind::Text, text("")))
        .field(Field::new("port", LeafKind::U16, Setting::Int(0)))
}

/// `AppConfig { #[nested] database: DatabaseConfig, name: String }`.
fn app_config() -> Schema {
    Schema::new()
        .nested("database", &database_config())
        .field(Field::new("name", LeafKind::Text, text("")))
}

/// `WithSkipped { host: String, #[skip] runtime_state: Vec<String> }`.
fn with_skipped() -> Schema {
    Schema::new()
        .field(Field::new("host", LeafKind::Text, text("")))
        .field(Field::new("runtime_state", LeafKind::TextList, Setting::List(Vec::new())).skip())
}

/// `OnlySkipped { #[skip] runtime_state: Vec<String> }`.
fn only_skipped() -> Schema {
    Schema::new()
        .field(Field::new("runtime_state", LeafKind::TextList, Setting::List(Vec::new())).skip())
}

#[test]
fn simple_provenance() {
    let json = r#"{ "host": "localhost", "port": 5432 }"#;

    let config = Config::new().add_json_str("Json Source", json);

    let db = config.build(&database_config()).unwrap();

    let host = db.leaf("host").unwrap();
    assert_eq!(host.value(), &text("localhost"));
    assert_eq!(host.source().name(), "Json Source");

    let port = db.leaf("port").unwrap();
    assert_eq!(port.value(), &Setting::Int(5432));
    assert_eq!(port.source().name(), "Json Source");
}

#[test]
fn partial_from_ref_wraps_every_field_in_some() {
    let cfg = Partial::new().with("host", text("db.example")).with("port", Setting::Int(9000));
    let partial = database_config().partial_from(&cfg);
    assert_eq!(partial.get("host"), Some(&text("db.example")));
    assert_eq!(partial.get("port"), Some(&Setting::Int(9000)));
}

#[test]
fn partial_from_default_uses_struct_defaults() {
    let schema = database_config();
    let partial = schema.partial_from(&schema.defaults());
    assert_eq!(partial.get("host"), Some(&text("")));
    assert_eq!(partial.get("port"), Some(&Setting::Int(0)));
}

#[test]
fn prov_converts_into_plain_user_struct() {
    let toml = r#"
name = "my-app"
[database]
host = "db.example"
"#;

    let config = Config::new().add_toml_str("k.toml", toml);
    let app_prov = config.build(&app_config()).unwrap();

    // Each leaf's active value, with no document round trip.
    let app = app_prov.to_values();
    assert_eq!(app.get("name"), Some(&text("my-app")));
    assert_eq!(app.get("database.host"), Some(&text("db.example")));
    assert_eq!(app.get("database.port"), Some(&Setting::Int(0))); // unset → default
}

#[test]
fn prov_into_user_struct_fills_skipped_field_with_default() {
    let cfg_prov = Config::new().build(&with_skipped()).unwrap();
    let cfg = cfg_prov.to_values();
    assert_eq!(cfg.get("host"), Some(&text("")));
    assert_eq!(cfg.get("runtime_state"), Some(&Setting::List(Vec::new())));
}

#[test]
fn all_skipped_struct_compiles_and_converts() {
    let cfg_prov = Config::new().build(&only_skipped()).unwrap();
    let cfg = cfg_prov.to_values();
    assert_eq!(cfg.get("runtime_state"), Some(&Setting::List(Vec::new())));
}

#[test]
fn history_retains_overridden_values_in_order() {
    let cfg = Config::new()
        .add_json_str("a.json", r#"{"host": "first"}"#)
        .add_json_str("b.json", r#"{"host": "second"}"#)
        .build(&database_config())
        .unwrap();

    let host = cfg.leaf("host").unwrap();
    let chain = host.history();
    assert_eq!(chain.len(), 3, "defaults + 2 sources");
    assert_eq!(chain[0].value, text(""));
    assert_eq!(chain[0].source.category(), Category::Default);
    assert_eq!(chain[1].value, text("first"));
    assert_eq!(chain[1].source.name(), "a.json");
    assert_eq!(chain[2].value, text("second"));
    assert_eq!(chain[2].source.name(), "b.json");
    // Active accessors agree with the last entry.
    assert_eq!(host.value(), &text("second"));
}

