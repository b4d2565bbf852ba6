use provcfg::{Category, Config, Field, LeafKind, Schema, Setting, Source, TomlStr};

fn text(s: &str) -> Setting {
    Setting::Text(s.to_string())
}

fn database_config() -> Schema {
    Schema::new()
        .field(Field::new("host", LeafKind::Text, text("")))
        .field(Field::new("port", LeafKind::U16, Setting::Int(0)))
}

fn app_config() -> Schema {
    Schema::new()
        .nested("database", &database_config())
        .field(Field::new("name", LeafKind::Text, text("")))
}

fn with_secret() -> Schema {
    Schema::new()
        .field(Field::new("name", LeafKind::Text, text("")))
        .field(Field::new("password", LeafKind::Text, text("")).secret())
}

#[test]
fn category_serializes_to_lowercase_string() {
    assert_eq!(Category::Default.as_str(), "default");
    assert_eq!(Category::File.as_str(), "file");
    assert_eq!(Category::Env.as_str(), "env");
    assert_eq!(Category::Cli.as_str(), "cli");
}

#[test]
fn walk_leaves_flags_secret_fields() {
    let config = Config::new();
    let cfg = config.build(&with_secret()).unwrap();

    let mut secret_flags: Vec<(String, bool)> = cfg
        .walk_leaves("")
        .into_iter()
        .map(|v| (v.path, v.secret))
        .collect();
    secret_flags.sort_by(|a, b| a.0.cmp(&b.0));

    assert_eq!(
        secret_flags,
        vec![("name".to_string(), false), ("password".to_string(), true)]
    );
}

#[test]
fn walk_leaves_yields_path_value_category_per_leaf() {
    let toml = r#"
name = "my-app"
[database]
host = "db.example"
"#;

    let config = Config::new().add_source(Source::Toml(TomlStr::new("k.toml", toml)));
    let app = config.build(&app_config()).unwrap();

    let mut leaves: Vec<(String, Setting, Category, bool)> = app
        .walk_leaves("")
        .into_iter()
        .map(|v| (v.path, v.value, v.category, v.secret))
        .collect();

    leaves.sort_by(|a, b| a.0.cmp(&b.0));

    assert_eq!(
        leaves.len(),
        3,
        "expected 3 leaves (name, database.host, database.port)"
    );
    assert_eq!(leaves[0].0, "database.host");
    assert_eq!(leaves[0].1, text("db.example"));
    assert_eq!(leaves[0].2, Category::File);
    assert!(!leaves[0].3);
    assert_eq!(leaves[1].0, "database.port");
    assert_eq!(leaves[1].1, Setting::Int(0));
    assert_eq!(leaves[1].2, Category::Default);
    assert!(!leaves[1].3);
    assert_eq!(leaves[2].0, "name");
    assert_eq!(leaves[2].1, text("my-app"));
    assert_eq!(leaves[2].2, Category::File);
    assert!(!leaves[2].3);
}

fn member<'a>(n: &'a provcfg::Node, key: &str) -> &'a provcfg::Node {
    match n {
        provcfg::Node::Object(es) => &es.iter().find(|(k, _)| k == key).expect("key present").1,
        _ => panic!("not an object"),
    }
}

#[test]
fn prov_serializes_active_values_through_serde() {
    let toml = r#"
name = "my-app"
[database]
host = "db.example"
"#;

    let config = Config::new().add_source(Source::Toml(TomlStr::new("k.toml", toml)));
    let app = config.build(&app_config()).unwrap();

    let doc = app.document();
    assert_eq!(format!("{:?}", member(&doc, "name")), format!("{:?}", provcfg::Node::Text("my-app".to_string())));
    assert_eq!(
        format!("{:?}", member(member(&doc, "database"), "host")),
        format!("{:?}", provcfg::Node::Text("db.example".to_string()))
    );
    assert_eq!(
        format!("{:?}", member(member(&doc, "database"), "port")),
        format!("{:?}", provcfg::Node::Number("0".to_string()))
    );
}
