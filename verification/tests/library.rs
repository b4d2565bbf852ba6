use provcfg::{
    deserialize_env_list, Category, Config, ConfigError, CustomSource, EnvSource, Field, LeafKind,
    Node, Partial, Schema, Section, Setting, Source, SourcesMap, TomlStr,
};

fn text(s: &str) -> Setting {
    Setting::Text(s.to_string())
}

fn list(items: &[&str]) -> Setting {
    Setting::List(items.iter().map(|s| s.to_string()).collect())
}

fn vars(pairs: &[(&str, &str)]) -> Vec<(String, String)> {
    pairs.iter().map(|(k, v)| (k.to_string(), v.to_string())).collect()
}

fn database_config() -> Schema {
    Schema::new()
        .field(Field::new("host", LeafKind::Text, text("")))
        .field(Field::new("port", LeafKind::U16, Setting::Int(0)))
}

fn app_config() -> Schema {
    Schema::new()
        .nested("database", &database_config())
        .field(Field::new("name", LeafKind::Text, text("")))
}

fn items_schema() -> Schema {
    Schema::new().field(Field::new("items", LeafKind::TextList, Setting::List(Vec::new())))
}

#[test]
fn later_source_wins_and_history_skips_sources_that_do_not_set() {
    let cfg = Config::new()
        .add_json_str("a.json", r#"{"host": "a", "port": 1}"#)
        .add_json_str("b.json", r#"{"port": 2}"#)
        .add_toml_str("c.toml", "host = \"c\"")
        .build(&database_config())
        .unwrap();

    let host = cfg.leaf("host").unwrap();
    let names: Vec<&str> = host.history().iter().map(|e| e.source.name()).collect();
    assert_eq!(names, vec!["default", "a.json", "c.toml"]);
    assert_eq!(host.value(), &text("c"));

    let port = cfg.leaf("port").unwrap();
    assert_eq!(port.history().len(), 3);
    assert_eq!(port.value(), &Setting::Int(2));
    assert_eq!(port.source().name(), "b.json");
}

#[test]
fn list_key_values_are_split_and_trimmed_by_unicode_whitespace() {
    let env = vars(&[("APP_ITEMS", "\u{3000}a ,\tb\n, c")]);
    let cfg = Config::new()
        .with_environment(env)
        .add_env_with_list_keys("APP", &["ITEMS"])
        .build(&items_schema())
        .unwrap();
    assert_eq!(cfg.leaf("items").unwrap().value(), &list(&["a", "b", "c"]));
}

#[test]
fn empty_list_key_value_gives_empty_list() {
    let env = vars(&[("APP_ITEMS", "")]);
    let cfg = Config::new()
        .with_environment(env)
        .add_env_with_list_keys("APP", &["items"])
        .build(&items_schema())
        .unwrap();
    assert_eq!(cfg.leaf("items").unwrap().value(), &Setting::List(Vec::new()));
    assert_eq!(cfg.leaf("items").unwrap().source().category(), Category::Env);
}

#[test]
fn env_value_that_parses_as_json_is_taken_as_json() {
    let env = vars(&[("APP_ITEMS", r#"["x", "y"]"#)]);
    let cfg = Config::new().with_environment(env).add_env("APP").build(&items_schema()).unwrap();
    assert_eq!(cfg.leaf("items").unwrap().value(), &list(&["x", "y"]));
}

#[test]
fn env_value_that_is_not_json_is_kept_as_text() {
    let env = vars(&[("APP_HOST", "db.internal")]);
    let cfg = Config::new().with_environment(env).add_env("APP").build(&database_config()).unwrap();
    assert_eq!(cfg.leaf("host").unwrap().value(), &text("db.internal"));
}

#[test]
fn env_reads_only_its_prefix_followed_by_underscore() {
    let env = vars(&[("APPX_HOST", "other"), ("APP", "bare"), ("OTHER_PORT", "5"), ("APP_PORT", "7")]);
    let cfg = Config::new().with_environment(env).add_env("APP").build(&database_config()).unwrap();
    assert_eq!(cfg.leaf("host").unwrap().value(), &text(""));
    assert_eq!(cfg.leaf("host").unwrap().source().category(), Category::Default);
    assert_eq!(cfg.leaf("port").unwrap().value(), &Setting::Int(7));
}

#[test]
fn env_document_is_nested_and_lowercased() {
    let src = EnvSource::new("env", "APP");
    let doc = src.document(&vars(&[("APP_DATABASE__HOST", "h"), ("APP_NAME", "n")]));
    let expected = Node::Object(vec![
        ("database".to_string(), Node::Object(vec![("host".to_string(), Node::Text("h".to_string()))])),
        ("name".to_string(), Node::Text("n".to_string())),
    ]);
    assert_eq!(format!("{:?}", doc), format!("{:?}", expected));
}

#[test]
fn out_of_range_integer_is_an_error_naming_the_source() {
    let err = Config::new()
        .add_json_str("big.json", r#"{"port": 70000}"#)
        .build(&database_config())
        .unwrap_err();
    assert_eq!(
        err,
        ConfigError::Deserialize {
            source: "big.json".to_string(),
            message: "invalid value for field `port`".to_string()
        }
    );
    assert_eq!(err.message(), "failed to deserialize source `big.json`: invalid value for field `port`");
}

#[test]
fn fraction_for_integer_is_an_error() {
    assert!(Config::new().add_json_str("f.json", r#"{"port": 1.5}"#).build(&database_config()).is_err());
    assert!(Config::new().add_toml_str("f.toml", "port = 1.0").build(&database_config()).is_err());
}

#[test]
fn negative_for_unsigned_is_an_error_and_signed_kinds_take_their_range() {
    assert!(Config::new().add_json_str("n.json", r#"{"port": -1}"#).build(&database_config()).is_err());
    let signed = Schema::new().field(Field::new("offset", LeafKind::I64, Setting::Int(0)));
    let cfg = Config::new()
        .add_json_str("s.json", r#"{"offset": -9223372036854775808}"#)
        .build(&signed)
        .unwrap();
    assert_eq!(cfg.leaf("offset").unwrap().value(), &Setting::Int(-9223372036854775808));
    let big = Schema::new().field(Field::new("n", LeafKind::U64, Setting::Int(0)));
    let cfg = Config::new()
        .add_json_str("u.json", r#"{"n": 18446744073709551615}"#)
        .build(&big)
        .unwrap();
    assert_eq!(cfg.leaf("n").unwrap().value(), &Setting::Int(18446744073709551615));
    assert!(Config::new().add_json_str("o.json", r#"{"n": 18446744073709551616}"#).build(&big).is_err());
}

#[test]
fn type_mismatch_is_an_error() {
    assert!(Config::new().add_json_str("t.json", r#"{"host": 123}"#).build(&database_config()).is_err());
    let env = vars(&[("APP_HOST", "123")]);
    // The value parses as a JSON number, which a text field does not take.
    assert!(Config::new().with_environment(env).add_env("APP").build(&database_config()).is_err());
}

#[test]
fn non_object_section_is_an_error() {
    let err = Config::new()
        .add_json_str("s.json", r#"{"database": "x"}"#)
        .build(&app_config())
        .unwrap_err();
    assert!(matches!(err, ConfigError::Deserialize { ref source, .. } if source == "s.json"));
}

#[test]
fn null_leaves_a_field_unset() {
    let cfg = Config::new()
        .add_json_str("n.json", r#"{"host": null, "database": null}"#)
        .build(&database_config())
        .unwrap();
    assert_eq!(cfg.leaf("host").unwrap().source().category(), Category::Default);
}

#[test]
fn document_that_is_neither_object_nor_array_is_an_error() {
    assert!(Config::new().add_json_str("a.json", "5").build(&database_config()).is_err());
    assert!(Config::new().add_json_str("b.json", "\"x\"").build(&database_config()).is_err());
}

#[test]
fn array_gives_tracked_fields_by_position() {
    let cfg = Config::new().add_json_str("a.json", r#"["h", 5432]"#).build(&database_config()).unwrap();
    assert_eq!(cfg.leaf("host").unwrap().value(), &text("h"));
    assert_eq!(cfg.leaf("port").unwrap().value(), &Setting::Int(5432));
    let short = Config::new().add_json_str("b.json", r#"["h"]"#).build(&database_config()).unwrap();
    assert_eq!(short.leaf("port").unwrap().source().category(), Category::Default);
    let holes = Config::new().add_json_str("c.json", r#"[null, 1]"#).build(&database_config()).unwrap();
    assert_eq!(holes.leaf("host").unwrap().source().category(), Category::Default);
    assert_eq!(holes.leaf("port").unwrap().value(), &Setting::Int(1));
}

#[test]
fn array_position_skips_skipped_fields_and_nests() {
    let schema = Schema::new()
        .field(Field::new("hidden", LeafKind::Text, text("d")).skip())
        .nested("database", &database_config())
        .field(Field::new("name", LeafKind::Text, text("")));
    let cfg = Config::new().add_json_str("a.json", r#"[["h", 1], "n"]"#).build(&schema).unwrap();
    assert_eq!(cfg.leaf("database.host").unwrap().value(), &text("h"));
    assert_eq!(cfg.leaf("database.port").unwrap().value(), &Setting::Int(1));
    assert_eq!(cfg.leaf("name").unwrap().value(), &text("n"));
    assert_eq!(cfg.to_values().get("hidden"), Some(&text("d")));
}

#[test]
fn array_longer_than_its_struct_is_refused_except_in_toml() {
    assert!(Config::new().add_json_str("a.json", r#"["h", 1, true]"#).build(&database_config()).is_err());
    let schema = Schema::new().nested("database", &database_config());
    assert!(Config::new().add_json_str("b.json", r#"{"database": ["h", 1, 2]}"#).build(&schema).is_err());
    let cfg = Config::new().add_toml_str("c.toml", "database = [\"h\", 1, 2]").build(&schema).unwrap();
    assert_eq!(cfg.leaf("database.host").unwrap().value(), &text("h"));
    assert_eq!(cfg.leaf("database.port").unwrap().value(), &Setting::Int(1));
}

#[test]
fn renamed_field_given_under_both_name_and_alias_is_an_error() {
    let schema = Schema::new().field(Field::new("host", LeafKind::Text, text("")).rename("HOSTNAME"));
    let err = Config::new()
        .add_json_str("a.json", r#"{"HOSTNAME": "y", "hostname": "z"}"#)
        .build(&schema)
        .unwrap_err();
    assert!(matches!(err, ConfigError::Deserialize { ref source, .. } if source == "a.json"));
    assert_eq!(err.cause(), "invalid value for field `host`");
}

#[test]
fn toml_datetime_is_not_text() {
    let err = Config::new()
        .add_toml_str("a.toml", "host = 1979-05-27T07:32:00Z")
        .build(&database_config())
        .unwrap_err();
    assert!(matches!(err, ConfigError::Deserialize { ref source, .. } if source == "a.toml"));
}

#[test]
fn error_names_the_first_field_that_does_not_fit() {
    let err = Config::new()
        .add_json_str("a.json", r#"{"host": 1, "port": "x"}"#)
        .build(&database_config())
        .unwrap_err();
    assert_eq!(err.cause(), "invalid value for field `host`");
    assert_eq!(err.message(), "failed to deserialize source `a.json`: invalid value for field `host`");
    let nested = Config::new()
        .add_cli(Partial::new().with("database.port", text("p")))
        .build(&app_config())
        .unwrap_err();
    assert_eq!(nested.cause(), "invalid value for field `database.port`");
}

#[test]
fn repeated_identical_variables_make_the_same_document() {
    let once = EnvSource::new("env", "APP").document(&vars(&[("APP_A", "1"), ("APP_B__C", "x")]));
    let twice = EnvSource::new("env", "APP").document(&vars(&[
        ("APP_B__C", "x"),
        ("APP_A", "1"),
        ("APP_B__C", "x"),
        ("APP_A", "1"),
    ]));
    assert_eq!(format!("{:?}", once), format!("{:?}", twice));
}

#[test]
fn collect_sources_writes_prefixed_paths_and_keeps_other_keys() {
    let cfg = Config::new()
        .add_json_str("a.json", r#"{"database": {"host": "h"}}"#)
        .build(&app_config())
        .unwrap();
    let mut out = SourcesMap::new();
    out.insert("other".to_string(), Category::Cli);
    out.insert("app.name".to_string(), Category::Env);
    cfg.collect_sources("app", &mut out);
    assert_eq!(out.get("other"), Some(&Category::Cli));
    assert_eq!(out.get("app.database.host"), Some(&Category::File));
    assert_eq!(out.get("app.database.port"), Some(&Category::Default));
    assert_eq!(out.get("app.name"), Some(&Category::Default));
    assert_eq!(out.len(), 4);
    assert_eq!(cfg.sources_map().len(), cfg.walk_leaves("").len());
}

#[test]
fn building_from_a_records_own_partial_gives_the_record_back() {
    let schema = Schema::new()
        .nested("database", &database_config())
        .field(Field::new("name", LeafKind::Text, text("")))
        .field(Field::new("token", LeafKind::Text, text("t0")).skip());
    let record = Partial::new()
        .with("database.host", text("h"))
        .with("database.port", Setting::Int(7))
        .with("name", text("n"))
        .with("token", text("secret"));
    let cfg = Config::new().add_cli(schema.partial_from(&record)).build(&schema).unwrap();
    let back = cfg.to_values();
    assert_eq!(back.get("database.host"), Some(&text("h")));
    assert_eq!(back.get("database.port"), Some(&Setting::Int(7)));
    assert_eq!(back.get("name"), Some(&text("n")));
    assert_eq!(back.get("token"), Some(&text("t0")));
}

#[test]
fn document_holds_no_skipped_field() {
    let schema = Schema::new()
        .field(Field::new("name", LeafKind::Text, text("n")))
        .field(Field::new("token", LeafKind::Text, text("t")).skip());
    let cfg = Config::new().build(&schema).unwrap();
    let expected = Node::Object(vec![("name".to_string(), Node::Text("n".to_string()))]);
    assert_eq!(format!("{:?}", cfg.document()), format!("{:?}", expected));
}

#[test]
fn first_failing_source_is_named() {
    let err = Config::new()
        .add_json_str("good.json", "{}")
        .add_toml_str("bad.toml", "host = ")
        .add_json_str("worse.json", "{")
        .build(&database_config())
        .unwrap_err();
    assert!(matches!(err, ConfigError::Deserialize { ref source, .. } if source == "bad.toml"));
}

#[test]
fn custom_source_supplies_its_document() {
    let doc = Node::Object(vec![("host".to_string(), Node::Text("x".to_string()))]);
    let cfg = Config::new()
        .add_source(Source::Custom(CustomSource::new("demo", Category::Custom("map".to_string()), doc)))
        .build(&database_config())
        .unwrap();
    assert_eq!(cfg.leaf("host").unwrap().value(), &text("x"));
    assert_eq!(cfg.leaf("host").unwrap().source().name(), "demo");
    assert_eq!(cfg.leaf("host").unwrap().source().category().as_str(), "map");
}

#[test]
fn renamed_field_matches_its_name_verbatim_and_its_lowercase_alias() {
    let schema = Schema::new().field(Field::new("host", LeafKind::Text, text("")).rename("HOSTNAME"));
    let a = Config::new().add_json_str("a.json", r#"{"HOSTNAME": "y"}"#).build(&schema).unwrap();
    assert_eq!(a.leaf("host").unwrap().value(), &text("y"));
    let b = Config::new().add_json_str("b.json", r#"{"hostname": "z"}"#).build(&schema).unwrap();
    assert_eq!(b.leaf("host").unwrap().value(), &text("z"));
    let c = Config::new().add_json_str("c.json", r#"{"host": "w"}"#).build(&schema).unwrap();
    assert_eq!(c.leaf("host").unwrap().source().category(), Category::Default);
    assert_eq!(a.sources_map().get("HOSTNAME"), Some(&Category::File));
}

#[test]
fn cli_partial_of_the_wrong_kind_is_an_error() {
    let err = Config::new()
        .add_cli(Partial::new().with("port", text("eighty")))
        .build(&database_config())
        .unwrap_err();
    assert!(matches!(err, ConfigError::Deserialize { ref source, .. } if source == "cli"));
    assert!(Config::new()
        .add_cli(Partial::new().with("port", Setting::Int(70000)))
        .build(&database_config())
        .is_err());
}

#[test]
fn document_of_a_build_nests_active_values() {
    let toml = "name = \"my-app\"\n[database]\nhost = \"db.example\"\n";
    let app = Config::new()
        .add_source(Source::Toml(TomlStr::new("k.toml", toml)))
        .build(&app_config())
        .unwrap();
    let expected = Node::Object(vec![
        (
            "database".to_string(),
            Node::Object(vec![
                ("host".to_string(), Node::Text("db.example".to_string())),
                ("port".to_string(), Node::Number("0".to_string())),
            ]),
        ),
        ("name".to_string(), Node::Text("my-app".to_string())),
    ]);
    assert_eq!(format!("{:?}", app.document()), format!("{:?}", expected));
}

#[test]
fn negative_integers_are_written_as_decimal_text() {
    let schema = Schema::new().field(Field::new("offset", LeafKind::I32, Setting::Int(-1207)));
    let doc = Config::new().build(&schema).unwrap().document();
    assert_eq!(
        format!("{:?}", doc),
        format!("{:?}", Node::Object(vec![("offset".to_string(), Node::Number("-1207".to_string()))]))
    );
}

#[test]
fn deserialize_env_list_splits_on_commas_and_trims() {
    assert_eq!(deserialize_env_list(&" a, b ,c ".to_string()), vec!["a", "b", "c"]);
    assert_eq!(deserialize_env_list(&"a,,b".to_string()), vec!["a", "", "b"]);
    assert!(deserialize_env_list(&String::new()).is_empty());
}

#[test]
fn io_error_message_names_the_path() {
    let err = Config::new()
        .add_toml_file_contents("/etc/app.toml", Err("denied".to_string()))
        .err()
        .unwrap();
    assert_eq!(err.message(), "failed to read `/etc/app.toml`: denied");
    assert_eq!(err.cause(), "denied");
}

#[test]
fn walk_leaves_puts_the_prefix_in_front() {
    let cfg = Config::new().build(&database_config()).unwrap();
    let paths: Vec<String> = cfg.walk_leaves("db").into_iter().map(|v| v.path).collect();
    assert_eq!(paths, vec!["db.host", "db.port"]);
}

#[test]
fn category_labels() {
    assert_eq!(Category::Custom("vault".to_string()).as_str(), "vault");
    assert_eq!(provcfg::defaults_source().name(), "default");
}

#[test]
fn double_underscore_runs_split_left_to_right() {
    // `A____B` splits into `a`, ``, `b`; `A___B` into `a`, `_b`.
    let src = EnvSource::new("env", "P");
    let doc = src.document(&vars(&[("P_A___B", "1")]));
    let expected = Node::Object(vec![(
        "a".to_string(),
        Node::Object(vec![("_b".to_string(), Node::Number("1".to_string()))]),
    )]);
    assert_eq!(format!("{:?}", doc), format!("{:?}", expected));
}

#[test]
fn a_builds_document_reads_back_as_its_active_values() {
    let schema = Schema::new()
        .nested("database", &database_config())
        .field(Field::new("name", LeafKind::Text, text("")))
        .field(Field::new("offset", LeafKind::I16, Setting::Int(-300)))
        .field(Field::new("tags", LeafKind::TextList, list(&["x"])));
    let first = Config::new()
        .add_json_str("a.json", r#"{"database": {"port": 8080}, "name": "n", "tags": ["p", "q"]}"#)
        .build(&schema)
        .unwrap();
    let again = Config::new()
        .add_source(Source::Custom(CustomSource::new("copy", Category::File, first.document())))
        .build(&schema)
        .unwrap();
    for field in ["database.host", "database.port", "name", "offset", "tags"] {
        let h = again.leaf(field).unwrap();
        assert_eq!(h.value(), first.leaf(field).unwrap().value());
        assert_eq!(h.source().name(), "copy");
    }
    assert_eq!(again.leaf("offset").unwrap().value(), &Setting::Int(-300));
}

#[test]
fn renamed_section_matches_its_name_and_lowercase_alias() {
    let schema = Schema::new().section(Section::new("database").rename("DB"), &database_config());
    let a = Config::new().add_json_str("a.json", r#"{"DB": {"host": "h"}}"#).build(&schema).unwrap();
    assert_eq!(a.leaf("database.host").unwrap().value(), &text("h"));
    assert_eq!(a.sources_map().get("DB.host"), Some(&Category::File));
    let env = vars(&[("APP_DB__PORT", "9")]);
    let b = Config::new().with_environment(env).add_env("APP").build(&schema).unwrap();
    assert_eq!(b.leaf("database.port").unwrap().value(), &Setting::Int(9));
    let c = Config::new().add_json_str("c.json", r#"{"database": {"host": "h"}}"#).build(&schema).unwrap();
    assert_eq!(c.leaf("database.host").unwrap().source().category(), Category::Default);
}

#[test]
fn skipped_section_keeps_its_defaults_and_takes_no_position() {
    let schema = Schema::new()
        .section(Section::new("database").skip(), &database_config())
        .field(Field::new("name", LeafKind::Text, text("")));
    let cfg = Config::new()
        .add_json_str("a.json", r#"{"database": {"host": "h"}, "name": "n"}"#)
        .build(&schema)
        .unwrap();
    assert!(cfg.leaf("database.host").is_none());
    assert_eq!(cfg.to_values().get("database.host"), Some(&text("")));
    assert!(!cfg.sources_map().contains_key("database.host"));
    let by_position = Config::new().add_json_str("b.json", r#"["m"]"#).build(&schema).unwrap();
    assert_eq!(by_position.leaf("name").unwrap().value(), &text("m"));
}

#[test]
fn char_and_pointer_sized_kinds() {
    let schema = Schema::new()
        .field(Field::new("sep", LeafKind::Char, text(",")))
        .field(Field::new("count", LeafKind::USize, Setting::Int(0)))
        .field(Field::new("delta", LeafKind::ISize, Setting::Int(0)));
    let cfg = Config::new()
        .add_json_str("a.json", r#"{"sep": "é", "count": 12, "delta": -3}"#)
        .build(&schema)
        .unwrap();
    assert_eq!(cfg.leaf("sep").unwrap().value(), &text("é"));
    assert_eq!(cfg.leaf("count").unwrap().value(), &Setting::Int(12));
    assert_eq!(cfg.leaf("delta").unwrap().value(), &Setting::Int(-3));
    assert!(Config::new().add_json_str("b.json", r#"{"sep": "ab"}"#).build(&schema).is_err());
    assert!(Config::new().add_json_str("c.json", r#"{"count": -1}"#).build(&schema).is_err());
}

#[test]
fn parse_error_message_is_the_parsers() {
    let err = Config::new().add_json_str("a.json", "{").build(&database_config()).unwrap_err();
    assert!(err.cause().contains("EOF"));
    assert!(err.message().starts_with("failed to deserialize source `a.json`: "));
}
